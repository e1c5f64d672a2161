//! The traffic history and how it is read off a graph.

use crate::double::{closest, lemma_arithmetic_is_close, lemma_cancel, lemma_closest_error, lemma_closest_is_by_value, lemma_closest_is_normal, lemma_order_is_by_value, lemma_seconds_are_close, lemma_shifting_is_exact, lemma_whole_numbers_are_kept, seconds, seconds_of, whole, Double, Number, HALF, TOP};
use crate::gate::SECOND;
use crate::power::{down, lemma_power_grows, lemma_powers_of_two, lemma_scale_adds, lemma_scale_is_positive, power, up};
use crate::proxy::{latest, PerDirection};
use crate::round::{nice_ceiling, Round};
use crate::text::{append_number, append_one_decimal, append_two_digits, decimal, one_decimal, two_digits};
use std::collections::VecDeque;
use vstd::prelude::*;

verus! {

/// The least time between two samples, in nanoseconds.
pub const SAMPLE_NANOS: u64 = 500_000_000;

/// Two hours of history. Older samples are dropped so that the graph stays bounded.
pub const MAX_SAMPLES: usize = 14_400;

/// How far apart the time labels are.
pub const TICK_SECONDS: u64 = 10;

/// Into how many parts the gridlines divide the graph.
pub const GRID_PARTS: u64 = 4;

/// An average rate: so many bytes in so many nanoseconds.
#[derive(Clone, Copy, Debug, PartialEq, Eq, Structural)]
pub struct Rate {
    pub bytes: u64,
    pub nanos: u64,
}

impl Rate {
    /// No traffic.
    pub open spec fn none() -> Rate {
        Rate { bytes: 0, nanos: SECOND }
    }

    /// No traffic.
    pub fn idle() -> (rate: Rate)
        ensures
            rate == Rate::none(),
    {
        Rate { bytes: 0, nanos: SECOND }
    }
}

/// The rates since the previous sample, at a time in nanoseconds since the start.
#[derive(Clone, Copy, Debug, PartialEq, Eq, Structural)]
pub struct Sample {
    pub at: u64,
    pub kib_per_second: PerDirection<Rate>,
}

/// `units / per` KiB/s as text: in MiB/s from 1024 KiB/s on.
pub open spec fn rate_text(units: nat, per: nat) -> Seq<char> {
    if units >= 1024 * per {
        one_decimal(units, 1024 * per) + " MiB/s"@
    } else {
        one_decimal(units, per) + " KiB/s"@
    }
}

fn format_kib(units: u128, per: u128) -> (text: String)
    requires
        0 < per <= u128::MAX / 2048,
        units < u128::MAX / 10,
    ensures
        text@ == rate_text(units as nat, per as nat),
{
    let mut text = String::new();
    if units >= 1024 * per {
        append_one_decimal(&mut text, units, 1024 * per);
        text.append(" MiB/s");
    } else {
        append_one_decimal(&mut text, units, per);
        text.append(" KiB/s");
    }
    assert(text@ =~= rate_text(units as nat, per as nat));
    text
}

/// A rate in KiB/s, in double precision: the bytes through the seconds, through 1024.
pub open spec fn kib_of(rate: Rate) -> Number {
    closest(rate.bytes as nat, 1).over(seconds_of(rate.nanos as nat)).shifted(-10)
}

/// A rate in KiB/s.
pub fn kib_per_second(rate: Rate) -> (kib: Double)
    requires
        rate.nanos > 0,
    ensures
        kib@ == kib_of(rate),
        is_drawable(kib@),
{
    whole(rate.bytes).divide(seconds(rate.nanos)).shift(-10)
}

/// A rate as text.
pub open spec fn shown_rate(rate: Rate) -> Seq<char> {
    rate_text(kib_of(rate).numerator(), kib_of(rate).denominator())
}

/// A rate as text, with one decimal place.
pub fn format_rate(rate: Rate) -> (text: String)
    requires
        rate.nanos > 0,
    ensures
        text@ == shown_rate(rate),
{
    let (units, per) = kib_per_second(rate).fraction();
    format_kib(units, per)
}

/// Whether `kib` is a rate in KiB/s that counters and clocks of 64 bits can give.
pub open spec fn is_drawable(kib: Number) -> bool {
    kib.is_normal() && -101 <= kib.exponent <= 33
}

/// The whole seconds in `nanos` nanoseconds, which are counted in double precision.
pub open spec fn whole_seconds_of(nanos: u64) -> nat {
    seconds_of(nanos as nat).numerator() / seconds_of(nanos as nat).denominator()
}

/// The whole seconds in `nanos` nanoseconds.
pub fn whole_seconds(nanos: u64) -> (whole: u64)
    ensures
        whole == whole_seconds_of(nanos),
{
    let (n, d) = seconds(nanos).fraction();
    let whole: u128 = n / d;
    assert(whole <= n) by (nonlinear_arith)
        requires
            whole == n / d,
            d > 0,
    ;
    whole as u64
}

/// `seconds` as hours, minutes and seconds, without the hours where there are none.
pub open spec fn clock_text(seconds: nat) -> Seq<char> {
    let hours = seconds / 3600;
    let minutes = seconds / 60 % 60;
    if hours > 0 {
        decimal(hours) + ":"@ + two_digits(minutes) + ":"@ + two_digits(seconds % 60)
    } else {
        decimal(minutes) + ":"@ + two_digits(seconds % 60)
    }
}

/// `seconds` as hours, minutes and seconds.
pub fn format_clock(seconds: u64) -> (text: String)
    ensures
        text@ == clock_text(seconds as nat),
{
    let hours: u64 = seconds / 3600;
    let minutes: u64 = seconds / 60 % 60;
    let mut text = String::new();
    if hours > 0 {
        append_number(&mut text, hours as u128);
        text.append(":");
        append_two_digits(&mut text, minutes);
    } else {
        append_number(&mut text, minutes as u128);
    }
    text.append(":");
    append_two_digits(&mut text, seconds % 60);
    assert(text@ =~= clock_text(seconds as nat));
    text
}

/// Adds a sample. A full history loses its oldest one.
pub fn push_sample(samples: &mut VecDeque<Sample>, sample: Sample)
    ensures
        final(samples)@ == pushed(old(samples)@, sample),
{
    if samples.len() == MAX_SAMPLES {
        let _ = samples.pop_front();
    }
    samples.push_back(sample);
    assert(final(samples)@ =~= pushed(old(samples)@, sample));
}

/// `samples` with `sample` added. A full history loses its oldest one.
pub open spec fn pushed(samples: Seq<Sample>, sample: Sample) -> Seq<Sample> {
    if samples.len() == MAX_SAMPLES {
        samples.drop_first().push(sample)
    } else {
        samples.push(sample)
    }
}

/// `samples` with all of `more` added, in order.
pub open spec fn pushed_all(samples: Seq<Sample>, more: Seq<Sample>) -> Seq<Sample>
    decreases more.len(),
{
    if more.len() == 0 {
        samples
    } else {
        pushed(pushed_all(samples, more.drop_last()), more.last())
    }
}

/// The history is bounded: it always holds the latest `MAX_SAMPLES` samples, in order.
pub proof fn lemma_samples_keep_the_latest(samples: Seq<Sample>, more: Seq<Sample>)
    requires
        samples.len() <= MAX_SAMPLES,
    ensures
        pushed_all(samples, more).len() <= MAX_SAMPLES,
        pushed_all(samples, more) == latest(samples + more, MAX_SAMPLES as nat),
    decreases more.len(),
{
    if more.len() == 0 {
        assert(samples + more =~= samples);
    } else {
        let before = more.drop_last();
        lemma_samples_keep_the_latest(samples, before);
        assert(samples + more =~= (samples + before).push(more.last()));
        assert(pushed_all(samples, more) =~= latest(samples + more, MAX_SAMPLES as nat));
    }
}

/// How many samples at the front come before `time`.
pub open spec fn leading_before(samples: Seq<Sample>, time: int) -> nat
    decreases samples.len(),
{
    if samples.len() > 0 && samples[0].at < time {
        1 + leading_before(samples.drop_first(), time)
    } else {
        0
    }
}

/// Whether no sample comes after a later one.
pub open spec fn in_order(samples: Seq<Sample>) -> bool {
    forall|i: int, j: int|
        0 <= i <= j < samples.len() ==> (#[trigger] samples[i]).at <= (#[trigger] samples[j]).at
}

/// In a history that is in order, the samples before `time` are all at the front.
pub proof fn lemma_leading_before(samples: Seq<Sample>, time: int)
    ensures
        leading_before(samples, time) <= samples.len(),
        forall|i: int|
            0 <= i < leading_before(samples, time) ==> (#[trigger] samples[i]).at < time,
        leading_before(samples, time) < samples.len() ==> samples[leading_before(
            samples,
            time,
        ) as int].at >= time,
        in_order(samples) ==> forall|i: int|
            leading_before(samples, time) <= i < samples.len() ==> (#[trigger] samples[i]).at
                >= time,
    decreases samples.len(),
{
    if samples.len() > 0 && samples[0].at < time {
        let rest = samples.drop_first();
        lemma_leading_before(rest, time);
        assert(forall|i: int| 0 < i < samples.len() ==> #[trigger] samples[i] == rest[i - 1]);
    }
}

fn count_before(samples: &VecDeque<Sample>, time: u128) -> (count: usize)
    ensures
        count == leading_before(samples@, time as int),
        count <= samples@.len(),
{
    let mut count: usize = 0;
    assert(samples@.skip(0) =~= samples@);
    while count < samples.len() && (samples[count].at as u128) < time
        invariant
            count <= samples.len(),
            leading_before(samples@, time as int) == count + leading_before(
                samples@.skip(count as int),
                time as int,
            ),
        decreases samples.len() - count,
    {
        assert(samples@.skip(count as int).drop_first() =~= samples@.skip(count + 1));
        count += 1;
    }
    count
}

/// Which samples to draw for the time from `from` to `to`: those within, and one
/// neighbour on each side.
pub fn visible_range(samples: &VecDeque<Sample>, from: u64, to: u64) -> (range: (usize, usize))
    ensures
        ({
            let before = leading_before(samples@, from as int);
            let until = leading_before(samples@, to + 1);
            &&& range.0 == if before > 0 {
                before - 1
            } else {
                0
            }
            &&& range.1 == if until < samples@.len() {
                until + 1
            } else {
                samples@.len()
            }
        }),
        range.0 <= samples@.len(),
        range.1 <= samples@.len(),
        from <= to ==> range.0 <= range.1,
        in_order(samples@) ==> forall|i: int|
            0 <= i < samples@.len() && from <= (#[trigger] samples@[i]).at <= to ==> range.0 <= i
                < range.1,
        in_order(samples@) ==> forall|i: int|
            range.0 < i < range.1 - 1 ==> from <= (#[trigger] samples@[i]).at <= to,
        range.0 > 0 ==> samples@[range.0 as int].at < from,
        range.1 < samples@.len() ==> range.1 > 0 && samples@[range.1 - 1].at > to,
{
    let before: usize = count_before(samples, from as u128);
    let until: usize = count_before(samples, to as u128 + 1);
    proof {
        lemma_leading_before(samples@, from as int);
        lemma_leading_before(samples@, to + 1);
    }
    let first: usize = if before > 0 {
        before - 1
    } else {
        0
    };
    let end: usize = if until < samples.len() {
        until + 1
    } else {
        samples.len()
    };
    (first, end)
}

/// The distance between two times.
pub open spec fn distance(a: int, b: int) -> int {
    if a < b {
        b - a
    } else {
        a - b
    }
}

/// The sample under a pointer at `time`: the nearer one of the two around it, and
/// the earlier one where both are as near.
pub open spec fn nearest_to(samples: Seq<Sample>, time: int) -> int {
    let after = leading_before(samples, time) as int;
    let left = if after > 0 {
        after - 1
    } else {
        0
    };
    let right = if after < samples.len() {
        after
    } else {
        samples.len() - 1
    };
    if distance(samples[right].at as int, time) < distance(samples[left].at as int, time) {
        right
    } else {
        left
    }
}

/// The sample under a pointer at `time`, if there are any samples.
pub fn nearest(samples: &VecDeque<Sample>, time: u64) -> (index: Option<usize>)
    ensures
        index is None <==> samples@.len() == 0,
        index matches Some(i) ==> i < samples@.len() && i == nearest_to(samples@, time as int),
{
    if samples.len() == 0 {
        return None;
    }
    let after: usize = count_before(samples, time as u128);
    let left: usize = if after > 0 {
        after - 1
    } else {
        0
    };
    let right: usize = if after < samples.len() {
        after
    } else {
        samples.len() - 1
    };
    let left_at: u64 = samples[left].at;
    let right_at: u64 = samples[right].at;
    let left_distance: u64 = if left_at < time {
        time - left_at
    } else {
        left_at - time
    };
    let right_distance: u64 = if right_at < time {
        time - right_at
    } else {
        right_at - time
    };
    if right_distance < left_distance {
        Some(right)
    } else {
        Some(left)
    }
}

/// In a history that is in order, no sample is nearer than the one under the pointer.
pub proof fn lemma_nearest_is_nearest(samples: Seq<Sample>, time: int)
    requires
        samples.len() > 0,
        in_order(samples),
    ensures
        0 <= nearest_to(samples, time) < samples.len(),
        forall|i: int|
            0 <= i < samples.len() ==> distance(
                samples[nearest_to(samples, time)].at as int,
                time,
            ) <= distance((#[trigger] samples[i]).at as int, time),
{
    lemma_leading_before(samples, time);
}

/// In a history that is in order, every sample within the time shown is drawn.
pub proof fn lemma_visible_samples_are_drawn(samples: Seq<Sample>, from: u64, to: u64, i: int)
    requires
        in_order(samples),
        0 <= i < samples.len(),
        from <= samples[i].at <= to,
    ensures
        leading_before(samples, from as int) <= i < leading_before(samples, to + 1),
{
    lemma_leading_before(samples, from as int);
    lemma_leading_before(samples, to + 1);
}

/// Where the history starts, and how long it is, in nanoseconds.
pub fn time_span(samples: &VecDeque<Sample>) -> (span: (u64, u64))
    ensures
        samples@.len() == 0 ==> span == (0u64, 0u64),
        samples@.len() > 0 ==> span.0 == samples@[0].at && span.1 == if samples@.last().at
            > samples@[0].at {
            samples@.last().at - samples@[0].at
        } else {
            0
        },
{
    if samples.len() == 0 {
        return (0, 0);
    }
    let first: u64 = samples[0].at;
    let last: u64 = samples[samples.len() - 1].at;
    (
        first,
        if last > first {
            last - first
        } else {
            0
        },
    )
}

/// The labels on the time axis from `from` to `to`, in nanoseconds: every
/// `TICK_SECONDS`, in seconds.
pub open spec fn ticks_between(from: int, to: int) -> Seq<u64> {
    let tick = TICK_SECONDS * SECOND;
    let first = (from + tick - 1) / tick;
    let last = to / tick;
    if first <= last {
        Seq::new((last - first + 1) as nat, |i: int| ((first + i) * TICK_SECONDS) as u64)
    } else {
        Seq::empty()
    }
}

/// The labels on the time axis from `from` to `to`, in nanoseconds.
pub fn ticks(from: u64, to: u64) -> (seconds: Vec<u64>)
    ensures
        seconds@ == ticks_between(from as int, to as int),
{
    let tick: u64 = TICK_SECONDS * SECOND;
    let mut index: u64 = from / tick;
    if from % tick > 0 {
        index += 1;
    }
    let ghost first = index;
    let last: u64 = to / tick;
    assert(tick == 10_000_000_000);
    assert(first == (from + tick - 1) / tick as int);
    let mut seconds: Vec<u64> = Vec::new();
    while index <= last
        invariant
            last <= u64::MAX / 10_000_000_000,
            first <= index,
            index <= last + 1 || index == first,
            seconds@.len() == index - first,
            forall|i: int|
                0 <= i < seconds@.len() ==> #[trigger] seconds@[i] == ((first + i)
                    * TICK_SECONDS) as u64,
        decreases last + 1 - index,
    {
        seconds.push(index * TICK_SECONDS);
        index += 1;
    }
    assert(seconds@ =~= ticks_between(from as int, to as int));
    seconds
}

/// The rates in KiB/s that a graph of `samples` and `caps`, in KiB/s, shows.
pub open spec fn shown_rates(samples: Seq<Sample>, caps: Option<PerDirection<u64>>) -> Seq<Number>
    decreases samples.len(),
{
    if samples.len() > 0 {
        let last = samples.last().kib_per_second;
        shown_rates(samples.drop_last(), caps) + seq![kib_of(last.download), kib_of(last.upload)]
    } else {
        match caps {
            Some(caps) => seq![closest(caps.download as nat, 1), closest(caps.upload as nat, 1)],
            None => Seq::empty(),
        }
    }
}

/// Whether `peak` is the greatest of `rates`, or zero where there are none.
pub open spec fn is_peak(peak: Number, rates: Seq<Number>) -> bool {
    &&& peak == (Number { mantissa: 0, exponent: 0 }) || rates.contains(peak)
    &&& forall|i: int| 0 <= i < rates.len() ==> (#[trigger] rates[i]).at_most(peak)
}

fn raise(peak: Double, rate: Double, Ghost(rates): Ghost<Seq<Number>>) -> (raised: Double)
    requires
        is_peak(peak@, rates),
        is_drawable(peak@),
        is_drawable(rate@),
    ensures
        is_peak(raised@, rates.push(rate@)),
        is_drawable(raised@),
{
    let raised = if rate.is_at_most(peak) {
        peak
    } else {
        rate
    };
    proof {
        let more = rates.push(rate@);
        assert(more[rates.len() as int] == rate@);
        if rates.contains(peak@) {
            let k = choose|k: int| 0 <= k < rates.len() && rates[k] == peak@;
            assert(more[k] == peak@);
        }
        assert forall|i: int| 0 <= i < more.len() implies (#[trigger] more[i]).at_most(raised@) by {
            if i < rates.len() {
                assert(more[i] == rates[i]);
            }
        }
    }
    raised
}

/// Whether every rate in `samples` was measured over some time.
pub open spec fn measured(samples: Seq<Sample>) -> bool {
    forall|i: int|
        0 <= i < samples.len() ==> (#[trigger] samples[i]).kib_per_second.download.nanos > 0
            && samples[i].kib_per_second.upload.nanos > 0
}

/// The highest rate that a graph shows: of the samples from `first` up to `end`, and
/// of the caps, in KiB/s.
pub fn peak(
    samples: &VecDeque<Sample>,
    first: usize,
    end: usize,
    caps: Option<PerDirection<u64>>,
) -> (peak: Double)
    requires
        first <= end <= samples@.len(),
        measured(samples@),
    ensures
        is_peak(peak@, shown_rates(samples@.subrange(first as int, end as int), caps)),
        is_drawable(peak@),
{
    let mut peak = Double { mantissa: 0, exponent: 0 };
    let ghost shown = samples@.subrange(first as int, end as int);
    let ghost mut rates: Seq<Number> = Seq::empty();
    match caps {
        Some(caps) => {
            let download = whole(caps.download);
            let upload = whole(caps.upload);
            peak = raise(peak, download, Ghost(rates));
            peak = raise(peak, upload, Ghost(rates.push(download@)));
            proof {
                rates = rates.push(download@).push(upload@);
            }
        },
        None => {},
    }
    assert(shown.take(0) =~= Seq::empty());
    assert(rates =~= shown_rates(shown.take(0), caps));
    let mut i: usize = first;
    while i < end
        invariant
            first <= i <= end <= samples@.len(),
            measured(samples@),
            shown == samples@.subrange(first as int, end as int),
            rates == shown_rates(shown.take(i - first), caps),
            is_peak(peak@, rates),
            is_drawable(peak@),
        decreases end - i,
    {
        let sample = samples[i];
        proof {
            let next = shown.take(i - first + 1);
            assert(next.drop_last() =~= shown.take(i - first));
            assert(next.last() == samples@[i as int]);
        }
        let download = kib_per_second(sample.kib_per_second.download);
        let upload = kib_per_second(sample.kib_per_second.upload);
        peak = raise(peak, download, Ghost(rates));
        peak = raise(peak, upload, Ghost(rates.push(download@)));
        proof {
            assert(rates + seq![download@, upload@] =~= rates.push(download@).push(upload@));
            rates = rates.push(download@).push(upload@);
        }
        i += 1;
    }
    assert(shown.take(end - first) =~= shown);
    peak
}

/// The number nearest to 1.1.
pub open spec fn a_tenth_more() -> Number {
    Number { mantissa: 0x11_9999_9999_999A, exponent: -52 }
}

/// How high a graph with this peak has to reach, in KiB/s: a tenth above the peak, and at
/// least 1 KiB/s.
pub open spec fn height_for(peak: Number) -> Number {
    let raised = peak.times(a_tenth_more());
    let one = closest(1, 1);
    if raised.at_most(one) {
        one
    } else {
        raised
    }
}

/// How far apart the gridlines of a graph with this peak have to be, in KiB/s: its height
/// in four parts.
pub open spec fn grid_need(peak: Number) -> Number {
    height_for(peak).shifted(-2)
}

/// Whether `step`, in thousandths of a KiB/s, is the least round value that is enough
/// between two gridlines of a graph with this peak.
pub open spec fn is_grid_step(step: nat, peak: Number) -> bool {
    exists|r: Round| #[trigger]
        r.is_ceiling_of(grid_need(peak).numerator(), grid_need(peak).denominator()) && r.power
            >= -3 && step == r.digit * power(10, (r.power + 3) as nat)
}

/// The rate between two gridlines of a graph with this peak, in thousandths of a
/// KiB/s: the least round value that is enough.
pub fn grid_step(peak: Double) -> (step: u128)
    requires
        is_drawable(peak@),
    ensures
        is_grid_step(step as nat, peak@),
        step <= u128::MAX / 100,
{
    let raised = peak.multiply(Double { mantissa: 0x11_9999_9999_999A, exponent: -52 });
    let one = whole(1);
    let height = if raised.is_at_most(one) {
        one
    } else {
        raised
    };
    let need = height.shift(-2);
    proof {
        lemma_height_is_one_or_more(height@, one@);
    }
    let nice = nice_ceiling(need);
    proof {
        let (n, d) = (need@.numerator(), need@.denominator());
        lemma_scale_is_positive(2, need@.exponent);
        lemma_need_is_small(need);
        lemma_step_is_whole(nice@, n, d);
    }
    let mut step: u128 = nice.digit as u128;
    let mut i: i64 = -3;
    assert(power(10, 0) == 1);
    assert(nice.digit * 1 == nice.digit);
    while i < nice.power
        invariant
            -3 <= i <= nice.power,
            step == nice.digit * power(10, (i + 3) as nat),
            1 <= nice.digit <= 5,
            nice.digit * power(10, (nice.power + 3) as nat) <= u128::MAX / 100,
        decreases nice.power - i,
    {
        proof {
            let g = nice.digit as nat;
            let k = power(10, (i + 3) as nat);
            let whole = power(10, (nice.power + 3) as nat);
            lemma_power_grows(10, (i + 3) as nat, (nice.power + 3) as nat);
            assert(power(10, (i + 4) as nat) == 10 * k);
            assert(g * (10 * k) == 10 * (g * k)) by (nonlinear_arith);
            assert(g * (10 * k) <= g * whole) by (nonlinear_arith)
                requires
                    10 * k <= whole,
            ;
        }
        step = step * 10;
        i += 1;
    }
    proof {
        assert(raised@ == peak@.times(a_tenth_more()));
        assert(need@ == grid_need(peak@));
        assert(nice@.is_ceiling_of(grid_need(peak@).numerator(), grid_need(peak@).denominator()));
    }
    step
}

proof fn lemma_need_is_small(need: Double)
    requires
        need.mantissa < TOP,
        need.exponent <= 54,
    ensures
        need@.numerator() < TOP * (2 * TOP),
{
    let (m, u) = (need.mantissa as nat, up(2, need.exponent as int));
    lemma_powers_of_two();
    assert(power(2, 0) == 1);
    if 0 <= need.exponent < 54 {
        lemma_power_grows(2, need.exponent as nat, 54);
    }
    lemma_scale_is_positive(2, need.exponent as int);
    assert(m * u < TOP * (2 * TOP)) by (nonlinear_arith)
        requires
            m < TOP,
            0 < u <= 2 * TOP,
    ;
}

proof fn lemma_quarter(height: Number)
    ensures
        4 * (height.shifted(-2).numerator() * height.denominator()) == height.numerator()
            * height.shifted(-2).denominator(),
{
    let e = height.exponent;
    let m = height.mantissa;
    if m == 0 {
        assert(height.numerator() == 0) by (nonlinear_arith)
            requires
                height.numerator() == 0 * up(2, e),
        ;
        assert(0 * height.denominator() == 0);
    } else {
        lemma_scale_adds(2, e, -2);
        assert(power(2, 2) == 4) by {
            reveal_with_fuel(power, 3);
        }
        let (u, v) = (up(2, e), down(2, e));
        let (w, z) = (up(2, e - 2), down(2, e - 2));
        assert(w * (v * 4) == z * (u * 1));
        assert(4 * ((m * w) * v) == (m * u) * z) by (nonlinear_arith)
            requires
                w * (v * 4) == z * (u * 1),
        ;
    }
}

proof fn lemma_height_is_one_or_more(height: Number, one: Number)
    requires
        one == closest(1, 1),
        height.is_normal(),
        one.at_most(height),
    ensures
        height.shifted(-2).denominator() <= 4 * height.shifted(-2).numerator(),
{
    lemma_closest_is_normal(1, 1);
    lemma_order_is_by_value(one, height);
    lemma_closest_error(1, 1);
    lemma_scale_is_positive(2, height.exponent);
    lemma_scale_is_positive(2, one.exponent);
    lemma_quarter(height);
    let (hn, hd) = (height.numerator() as int, height.denominator() as int);
    let (on, od) = (one.numerator() as int, one.denominator() as int);
    let need = height.shifted(-2);
    let (n, d) = (need.numerator() as int, need.denominator() as int);
    crate::double::lemma_one();
    assert(hd <= hn) by (nonlinear_arith)
        requires
            on * hd <= hn * od,
            on == od,
            od > 0,
    ;
    assert(d * hd <= hn * d) by (nonlinear_arith)
        requires
            hd <= hn,
            d >= 0,
    ;
    assert(d <= 4 * n) by (nonlinear_arith)
        requires
            d * hd <= hn * d,
            4 * (n * hd) == hn * d,
            hd > 0,
    ;
}

proof fn lemma_step_is_whole(round: Round, n: nat, d: nat)
    requires
        n < TOP * (2 * TOP),
        0 < d <= 4 * n,
        round.is_ceiling_of(n, d),
        round.numerator() * d <= 10 * (n * round.denominator()),
    ensures
        round.power >= -3,
        round.digit * power(10, (round.power + 3) as nat) <= u128::MAX / 100,
{
    let (u, v) = (up(10, round.power), down(10, round.power));
    let g = round.digit;
    lemma_scale_is_positive(10, round.power);
    reveal_with_fuel(power, 4);
    assert(power(10, 3) == 1000);
    if round.power < -3 {
        lemma_power_grows(10, 3, (-round.power) as nat);
        assert(g * 1 == g);
        assert(false) by (nonlinear_arith)
            requires
                n * v <= g * d,
                d <= 4 * n,
                g <= 5,
                v >= 10_000,
                d > 0,
        ;
    } else if round.power < 0 {
        lemma_power_grows(10, (round.power + 3) as nat, 3);
        let k = power(10, (round.power + 3) as nat);
        assert(g * k <= 5 * 1000) by (nonlinear_arith)
            requires
                g <= 5,
                k <= 1000,
        ;
    } else {
        let whole = g * u;
        assert(whole <= 10 * n) by (nonlinear_arith)
            requires
                whole * d <= 10 * (n * 1),
                d >= 1,
        ;
        crate::power::lemma_power_adds(10, round.power as nat, 3);
        assert(g * (u * 1000) == 1000 * whole) by (nonlinear_arith)
            requires
                whole == g * u,
        ;
    }
}

proof fn lemma_thousandths(round: Round, step: nat, n: nat, d: nat)
    requires
        round.power >= -3,
        round.covers(n, d),
        step == round.digit * power(10, (round.power + 3) as nat),
    ensures
        1000 * n <= step * d,
{
    let p = round.power;
    let (u, v, g) = (up(10, p), down(10, p), round.digit);
    let k = power(10, (p + 3) as nat);
    lemma_scale_adds(10, p, 3);
    lemma_scale_is_positive(10, p);
    assert(power(10, 3) == 1000) by {
        reveal_with_fuel(power, 4);
    }
    assert(k * (v * 1) == 1 * (u * 1000));
    assert(1000 * n <= step * d) by (nonlinear_arith)
        requires
            n * v <= (g * u) * d,
            k * v == u * 1000,
            step == g * k,
            v > 0,
    ;
}

/// The top gridline lies a tenth or more above the peak, but for one part in `TOP`, and
/// at 1 KiB/s or more.
pub proof fn lemma_graph_covers_the_peak(peak: Number, step: nat)
    requires
        peak.is_normal(),
        is_grid_step(step, peak),
    ensures
        11_000 * ((TOP - 1) * peak.numerator()) <= 10 * GRID_PARTS * (TOP * (step
            * peak.denominator())),
        GRID_PARTS * step >= 1000,
{
    let tenth = a_tenth_more();
    let raised = peak.times(tenth);
    let height = height_for(peak);
    let need = grid_need(peak);
    let r = choose|r: Round| #[trigger]
        r.is_ceiling_of(need.numerator(), need.denominator()) && r.power >= -3 && step == r.digit
            * power(10, (r.power + 3) as nat);
    lemma_powers_of_two();
    lemma_scale_is_positive(2, peak.exponent);
    lemma_scale_is_positive(2, raised.exponent);
    lemma_scale_is_positive(2, height.exponent);
    lemma_scale_is_positive(2, need.exponent);
    let (pn, pd) = (peak.numerator() as int, peak.denominator() as int);
    let (tn, td) = (tenth.numerator() as int, tenth.denominator() as int);
    let (rn, rd) = (raised.numerator() as int, raised.denominator() as int);
    let (hn, hd) = (height.numerator() as int, height.denominator() as int);
    let (n, d) = (need.numerator() as int, need.denominator() as int);
    let top = TOP as int;
    let s = step as int;
    assert(up(2, -52) == 1 && down(2, -52) == HALF);
    assert(tn == 0x11_9999_9999_999A && td == HALF);
    assert(pd * td > 0) by (nonlinear_arith)
        requires
            pd > 0,
            td > 0,
    ;
    lemma_closest_error(peak.numerator() * tenth.numerator(), peak.denominator() * tenth.denominator());
    lemma_closest_is_normal(
        peak.numerator() * tenth.numerator(),
        peak.denominator() * tenth.denominator(),
    );
    lemma_closest_is_normal(1, 1);
    assert(raised.at_most(height));
    lemma_order_is_by_value(raised, height);
    lemma_quarter(height);
    // The step covers a quarter of the height.
    assert(r.covers(need.numerator(), need.denominator()));
    lemma_thousandths(r, step, need.numerator(), need.denominator());
    lemma_height_is_one_or_more(height, closest(1, 1));
    assert(4 * s >= 1000) by (nonlinear_arith)
        requires
            1000 * n <= s * d,
            d <= 4 * n,
            d > 0,
    ;
    assert(1000 * hn <= 4 * s * hd) by (nonlinear_arith)
        requires
            1000 * n <= s * d,
            4 * (n * hd) == hn * d,
            hd > 0,
            d > 0,
    ;
    assert(1000 * rn <= 4 * s * rd) by (nonlinear_arith)
        requires
            1000 * hn <= 4 * s * hd,
            rn * hd <= hn * rd,
            hd > 0,
            rd > 0,
    ;
    // The raised peak is a tenth above the peak.
    assert(11 * td <= 10 * tn);
    assert((top - 1) * (pn * tn * rd) <= top * (rn * (pd * td)));
    assert(11 * (top - 1) * (pn * rd) <= 10 * top * (rn * pd)) by (nonlinear_arith)
        requires
            (top - 1) * (pn * tn * rd) <= top * (rn * (pd * td)),
            11 * td <= 10 * tn,
            td > 0,
            pn >= 0,
            rd > 0,
            top > 1,
    ;
    assert(11_000 * ((top - 1) * pn) <= 40 * (top * (s * pd))) by (nonlinear_arith)
        requires
            11 * (top - 1) * (pn * rd) <= 10 * top * (rn * pd),
            1000 * rn <= 4 * s * rd,
            rd > 0,
            pd > 0,
            top > 1,
    ;
}

/// The label of the gridline number `index` from the bottom.
pub fn grid_label(step: u128, index: u64) -> (text: String)
    requires
        step <= u128::MAX / 100,
        index <= GRID_PARTS,
    ensures
        text@ == rate_text(step as nat * index as nat, 1000),
{
    assert(step * index <= step * 4) by (nonlinear_arith)
        requires
            index <= 4,
    ;
    format_kib(step * index as u128, 1000)
}

/// Shown in place of a graph without samples.
pub fn empty_text(running: bool) -> (text: &'static str)
    ensures
        text@ == if running {
            "Waiting for traffic samples..."@
        } else {
            "Start the proxy to see traffic."@
        },
{
    if running {
        "Waiting for traffic samples..."
    } else {
        "Start the proxy to see traffic."
    }
}

/// The history is two hours of samples, half a second apart.
pub proof fn lemma_history_is_two_hours()
    ensures
        SECOND == 1_000_000_000,
        MAX_SAMPLES * SAMPLE_NANOS == 2 * 3600 * SECOND,
        2 * SAMPLE_NANOS == SECOND,
{
}

/// A new sample becomes the last one. The samples before it stay, in order, but for the oldest
/// one where there are already 14,400.
pub proof fn lemma_new_sample_is_last(samples: Seq<Sample>, sample: Sample)
    requires
        samples.len() <= 14_400,
    ensures
        pushed(samples, sample).last() == sample,
        samples.len() < 14_400 ==> pushed(samples, sample).drop_last() == samples,
        samples.len() == 14_400 ==> pushed(samples, sample).drop_last() == samples.skip(1),
{
    assert(pushed(samples, sample).drop_last() =~= if samples.len() < 14_400 {
        samples
    } else {
        samples.skip(1)
    });
}

/// The labels on the time axis are the whole multiples of ten seconds within the time shown,
/// all of them, in order.
pub proof fn lemma_ticks_are_every_ten_seconds(from: u64, to: u64)
    ensures
        ({
            let ticks = ticks_between(from as int, to as int);
            &&& forall|i: int|
                0 <= i < ticks.len() ==> #[trigger] ticks[i] % 10 == 0 && from <= ticks[i]
                    * 1_000_000_000 <= to
            &&& forall|i: int| 0 < i < ticks.len() ==> #[trigger] ticks[i] == ticks[i - 1] + 10
            &&& forall|t: u64|
                t % 10 == 0 && from <= t * 1_000_000_000 <= to ==> #[trigger] ticks.contains(t)
        }),
{
    let ticks = ticks_between(from as int, to as int);
    let tick = 10_000_000_000int;
    let first = (from + tick - 1) / tick;
    let last = to as int / tick;
    assert(TICK_SECONDS * SECOND == tick);
    assert forall|t: u64| t % 10 == 0 && from <= t * 1_000_000_000 <= to implies #[trigger]
        ticks.contains(t) by {
        let k = t as int / 10;
        assert(k * tick == t * 1_000_000_000);
        assert(first <= k <= last);
        assert(ticks[k - first] == t);
    }
}

/// A distance is how far apart two times are, whichever comes first.
pub proof fn lemma_distance_is_absolute(a: int, b: int)
    ensures
        distance(a, b) >= a - b,
        distance(a, b) >= b - a,
        distance(a, b) == a - b || distance(a, b) == b - a,
{
}

/// Of two samples that are as near to the pointer, the one under it is that before the
/// pointer. Of several at one time, it is the one next to the pointer.
pub proof fn lemma_nearest_is_the_earlier(samples: Seq<Sample>, time: int)
    requires
        samples.len() > 0,
        in_order(samples),
    ensures
        ({
            let n = nearest_to(samples, time);
            let at = samples[n].at;
            forall|i: int|
                #![trigger samples[i]]
                0 <= i < samples.len() ==> {
                    &&& samples[i].at < at ==> time - samples[i].at > at - time
                    &&& samples[i].at > at ==> samples[i].at - time >= time - at
                    &&& samples[i].at == at && at < time ==> i <= n
                    &&& samples[i].at == at && at >= time ==> n <= i
                }
        }),
{
    lemma_leading_before(samples, time);
}

/// A graph shows both caps, where there are any, and both rates of every sample, in order,
/// and nothing else.
pub proof fn lemma_every_rate_is_shown(samples: Seq<Sample>, caps: Option<PerDirection<u64>>)
    ensures
        ({
            let rates = shown_rates(samples, caps);
            let start: int = if caps is Some {
                2
            } else {
                0
            };
            &&& rates.len() == start + 2 * samples.len()
            &&& caps matches Some(caps) ==> rates[0] == closest(caps.download as nat, 1)
                && rates[1] == closest(caps.upload as nat, 1)
            &&& forall|i: int|
                #![trigger samples[i]]
                0 <= i < samples.len() ==> rates[start + 2 * i] == kib_of(
                    samples[i].kib_per_second.download,
                ) && rates[start + 2 * i + 1] == kib_of(samples[i].kib_per_second.upload)
        }),
    decreases samples.len(),
{
    if samples.len() > 0 {
        let rest = samples.drop_last();
        lemma_every_rate_is_shown(rest, caps);
        assert forall|i: int| 0 <= i < rest.len() implies #[trigger] samples[i] == rest[i] by {
        }
    }
}

/// The peak is not below any of the rates, and is one of them, unless there are none.
pub proof fn lemma_peak_is_the_greatest(peak: Number, rates: Seq<Number>)
    requires
        is_peak(peak, rates),
        forall|i: int| 0 <= i < rates.len() ==> (#[trigger] rates[i]).is_normal(),
    ensures
        forall|i: int|
            0 <= i < rates.len() ==> (#[trigger] rates[i]).numerator() * peak.denominator()
                <= peak.numerator() * rates[i].denominator(),
        rates.len() > 0 ==> rates.contains(peak),
        rates.len() == 0 ==> peak == closest(0, 1),
{
    let zero = Number { mantissa: 0, exponent: 0 };
    assert(peak.is_normal()) by {
        if rates.contains(peak) {
            let k = choose|k: int| 0 <= k < rates.len() && rates[k] == peak;
            assert(rates[k].is_normal());
        }
    }
    assert forall|i: int| 0 <= i < rates.len() implies (#[trigger] rates[i]).numerator()
        * peak.denominator() <= peak.numerator() * rates[i].denominator() by {
        lemma_order_is_by_value(rates[i], peak);
    }
    if rates.len() > 0 && peak == zero {
        assert(rates[0].at_most(peak));
        assert(rates[0] == zero);
    }
}

/// A time is shown in hours, minutes and seconds. Minutes and seconds have two digits where
/// something stands before them.
pub proof fn lemma_clock_splits_the_time(hours: nat, minutes: nat, seconds: nat)
    requires
        minutes < 60,
        seconds < 60,
    ensures
        ({
            let text = clock_text(3600 * hours + 60 * minutes + seconds);
            &&& hours == 0 ==> text == decimal(minutes) + seq![':'] + two_digits(seconds)
            &&& hours > 0 ==> text == decimal(hours) + seq![':'] + two_digits(minutes) + seq![':']
                + two_digits(seconds)
        }),
{
    let all = 3600 * hours + 60 * minutes + seconds;
    lemma_time_is_split(hours, minutes, seconds);
    let colon = seq![':'];
    assert(":"@ == colon) by {
        reveal_strlit(":");
        assert(":"@ =~= colon);
    }
    let (h, m, s) = (decimal(hours), two_digits(minutes), two_digits(seconds));
    if hours > 0 {
        assert(clock_text(all) == h + colon + m + colon + s);
    } else {
        assert(clock_text(all) == decimal(minutes) + colon + s);
    }
}

proof fn lemma_time_is_split(hours: nat, minutes: nat, seconds: nat)
    requires
        minutes < 60,
        seconds < 60,
    ensures
        (3600 * hours + 60 * minutes + seconds) / 3600 == hours,
        (3600 * hours + 60 * minutes + seconds) / 60 % 60 == minutes,
        (3600 * hours + 60 * minutes + seconds) % 60 == seconds,
{
    assert((3600 * hours + 60 * minutes + seconds) / 60 == 60 * hours + minutes);
}

/// A rate is shown in MiB/s exactly if it is 1024 KiB/s or more. The number before the unit
/// has one decimal place.
pub proof fn lemma_rate_is_shown_in_its_unit(units: nat, per: nat)
    ensures
        ({
            let text = rate_text(units, per);
            let number = text.take(text.len() - 6);
            let unit = text.skip(text.len() - 6);
            &&& text.len() > 6
            &&& units >= 1024 * per ==> number == one_decimal(units, 1024 * per) && unit
                == seq![' ', 'M', 'i', 'B', '/', 's']
            &&& units < 1024 * per ==> number == one_decimal(units, per) && unit
                == seq![' ', 'K', 'i', 'B', '/', 's']
        }),
{
    reveal_strlit(" MiB/s");
    reveal_strlit(" KiB/s");
    let text = rate_text(units, per);
    let (number, unit) = if units >= 1024 * per {
        (one_decimal(units, 1024 * per), " MiB/s"@)
    } else {
        (one_decimal(units, per), " KiB/s"@)
    };
    assert(text.take(text.len() - 6) =~= number);
    assert(text.skip(text.len() - 6) =~= unit);
    assert(" MiB/s"@ =~= seq![' ', 'M', 'i', 'B', '/', 's']);
    assert(" KiB/s"@ =~= seq![' ', 'K', 'i', 'B', '/', 's']);
}

/// Whole seconds are counted down. Rounding may count the last few microseconds before a
/// second as that second, and never loses one.
pub proof fn lemma_whole_seconds_are_counted(nanos: u64)
    ensures
        whole_seconds_of(nanos) * 1_000_000_000 <= nanos + 4_100,
        nanos < (whole_seconds_of(nanos) + 1) * 1_000_000_000,
        ({
            let s = seconds_of(nanos as nat);
            let whole = whole_seconds_of(nanos);
            whole * s.denominator() <= s.numerator() < (whole + 1) * s.denominator()
        }),
{
    let s = seconds_of(nanos as nat);
    let (sn, sd) = (s.numerator() as int, s.denominator() as int);
    lemma_seconds_are_close(nanos);
    let w = whole_seconds_of(nanos) as int;
    let q = nanos as int / 1_000_000_000;
    let n = nanos as int;
    let t = 0x20_0000_0000_0000int;
    assert(w * sd <= sn < (w + 1) * sd) by (nonlinear_arith)
        requires
            w == sn / sd,
            sd > 0,
    ;
    assert(q * sd <= sn);
    assert(q <= w) by (nonlinear_arith)
        requires
            q * sd <= sn,
            sn < (w + 1) * sd,
            sd > 0,
    ;
    let c = 1_000_000_000int;
    assert((t * t * (w * c)) * sd <= ((t + 1) * (t + 1) * n) * sd) by {
        assert((t * t * (w * c)) * sd == t * t * c * (w * sd)) by (nonlinear_arith);
        assert(t * t * c * (w * sd) <= t * t * c * sn) by (nonlinear_arith)
            requires
                w * sd <= sn,
                t >= 0,
                c >= 0,
        ;
        assert(t * t * c * sn == t * t * (sn * c)) by (nonlinear_arith);
        assert(((t + 1) * (t + 1) * n) * sd == (t + 1) * (t + 1) * (n * sd)) by (nonlinear_arith);
    }
    lemma_cancel(t * t * (w * c), (t + 1) * (t + 1) * n, sd);
    let p = w * c;
    assert(p <= n + 4_100) by (nonlinear_arith)
        requires
            t * t * p <= (t + 1) * (t + 1) * n,
            t == 0x20_0000_0000_0000int,
            0 <= n <= 0xFFFF_FFFF_FFFF_FFFF,
    ;
}

/// A rate in KiB/s is its bytes through its time, but for four parts in `TOP`.
pub proof fn lemma_rate_is_bytes_through_time(rate: Rate)
    requires
        rate.nanos > 0,
    ensures
        ({
            let kib = kib_of(rate);
            let time = 1024 * rate.nanos * kib.numerator();
            let traffic = rate.bytes * 1_000_000_000 * kib.denominator();
            &&& (TOP - 1) * (TOP - 1) * traffic <= (TOP + 1) * (TOP + 1) * time
            &&& (TOP - 1) * (TOP - 1) * time <= (TOP + 1) * (TOP + 1) * traffic
        }),
{
    let c = 1_000_000_000int;
    let t = TOP as int;
    let (low, mid, high) = ((t - 1) * (t - 1), t * t, (t + 1) * (t + 1));
    let (x, n) = (rate.bytes as int, rate.nanos as int);
    let b = closest(rate.bytes as nat, 1);
    let s = seconds_of(rate.nanos as nat);
    let o = b.over(s);
    let k = kib_of(rate);
    let (bn, bd) = (b.numerator() as int, b.denominator() as int);
    let (sn, sd) = (s.numerator() as int, s.denominator() as int);
    let (on, od) = (o.numerator() as int, o.denominator() as int);
    let (kn, kd) = (k.numerator() as int, k.denominator() as int);
    lemma_closest_error(rate.bytes as nat, 1);
    lemma_seconds_are_close(rate.nanos);
    lemma_scale_is_positive(2, b.exponent);
    lemma_scale_is_positive(2, o.exponent);
    lemma_scale_is_positive(2, k.exponent);
    assert(low > 0 && mid > 0) by (nonlinear_arith)
        requires
            low == (t - 1) * (t - 1),
            mid == t * t,
            t > 1,
    ;
    assert(low * (n * sd) <= mid * (sn * c) <= high * (n * sd));
    assert(sn > 0) by (nonlinear_arith)
        requires
            low * (n * sd) <= mid * (sn * c),
            low > 0,
            n > 0,
            sd > 0,
            mid > 0,
            c > 0,
    ;
    assert(s.mantissa > 0) by {
        if s.mantissa == 0 {
            assert(0 * up(2, s.exponent) == 0);
        }
    }
    lemma_arithmetic_is_close(b, s);
    lemma_shifting_is_exact(o, -10);
    assert(up(2, -10) == 1 && down(2, -10) == 1024) by {
        reveal_with_fuel(power, 11);
    }
    assert((t - 1) * (x * bd) <= t * bn <= (t + 1) * (x * bd));
    assert((t - 1) * ((bn * sd) * od) <= t * (on * (bd * sn)) <= (t + 1) * ((bn * sd) * od));
    assert(kn * (od * 1024) == on * kd) by {
        assert(on * 1 == on);
    }
    // The quotient is the bytes through the seconds.
    assert(low * (x * (sd * od)) <= mid * (on * sn)) by {
        let y = sd * od;
        assert((t - 1) * ((t - 1) * (x * bd)) * y <= (t - 1) * (t * bn) * y) by (nonlinear_arith)
            requires
                (t - 1) * (x * bd) <= t * bn,
                t > 1,
                y >= 0,
        ;
        assert((t - 1) * (t * bn) * y == t * ((t - 1) * ((bn * sd) * od))) by (nonlinear_arith)
            requires
                y == sd * od,
        ;
        assert(t * ((t - 1) * ((bn * sd) * od)) <= t * (t * (on * (bd * sn)))) by (nonlinear_arith)
            requires
                (t - 1) * ((bn * sd) * od) <= t * (on * (bd * sn)),
                t > 1,
        ;
        assert((t - 1) * ((t - 1) * (x * bd)) * y == (low * (x * y)) * bd) by (nonlinear_arith)
            requires
                low == (t - 1) * (t - 1),
        ;
        assert(t * (t * (on * (bd * sn))) == (mid * (on * sn)) * bd) by (nonlinear_arith)
            requires
                mid == t * t,
        ;
        assert(y >= 0) by (nonlinear_arith)
            requires
                y == sd * od,
                sd > 0,
                od > 0,
        ;
        lemma_cancel(low * (x * y), mid * (on * sn), bd);
    }
    assert(mid * (on * sn) <= high * (x * (sd * od))) by {
        let y = sd * od;
        assert(y >= 0) by (nonlinear_arith)
            requires
                y == sd * od,
                sd > 0,
                od > 0,
        ;
        assert((t + 1) * (t * bn) * y <= (t + 1) * ((t + 1) * (x * bd)) * y) by (nonlinear_arith)
            requires
                t * bn <= (t + 1) * (x * bd),
                t > 1,
                y >= 0,
        ;
        assert((t + 1) * (t * bn) * y == t * ((t + 1) * ((bn * sd) * od))) by (nonlinear_arith)
            requires
                y == sd * od,
        ;
        assert(t * (t * (on * (bd * sn))) <= t * ((t + 1) * ((bn * sd) * od))) by (nonlinear_arith)
            requires
                t * (on * (bd * sn)) <= (t + 1) * ((bn * sd) * od),
                t > 1,
        ;
        assert((t + 1) * ((t + 1) * (x * bd)) * y == (high * (x * y)) * bd) by (nonlinear_arith)
            requires
                high == (t + 1) * (t + 1),
        ;
        assert(t * (t * (on * (bd * sn))) == (mid * (on * sn)) * bd) by (nonlinear_arith)
            requires
                mid == t * t,
        ;
        lemma_cancel(mid * (on * sn), high * (x * y), bd);
    }
    // The seconds are the nanoseconds through their number in a second.
    assert(low * (x * c * od) <= high * (n * on)) by {
        assert(low * (x * (sd * od)) * c <= mid * (on * sn) * c) by (nonlinear_arith)
            requires
                low * (x * (sd * od)) <= mid * (on * sn),
                c > 0,
        ;
        assert(mid * (on * sn) * c == (mid * (sn * c)) * on) by (nonlinear_arith);
        assert((mid * (sn * c)) * on <= (high * (n * sd)) * on) by (nonlinear_arith)
            requires
                mid * (sn * c) <= high * (n * sd),
                on >= 0,
        ;
        assert(low * (x * (sd * od)) * c == (low * (x * c * od)) * sd) by (nonlinear_arith);
        assert((high * (n * sd)) * on == (high * (n * on)) * sd) by (nonlinear_arith);
        lemma_cancel(low * (x * c * od), high * (n * on), sd);
    }
    assert(low * (n * on) <= high * (x * c * od)) by {
        assert(mid * (on * sn) * c <= high * (x * (sd * od)) * c) by (nonlinear_arith)
            requires
                mid * (on * sn) <= high * (x * (sd * od)),
                c > 0,
        ;
        assert(mid * (on * sn) * c == (mid * (sn * c)) * on) by (nonlinear_arith);
        assert((low * (n * sd)) * on <= (mid * (sn * c)) * on) by (nonlinear_arith)
            requires
                low * (n * sd) <= mid * (sn * c),
                on >= 0,
        ;
        assert(high * (x * (sd * od)) * c == (high * (x * c * od)) * sd) by (nonlinear_arith);
        assert((low * (n * sd)) * on == (low * (n * on)) * sd) by (nonlinear_arith);
        lemma_cancel(low * (n * on), high * (x * c * od), sd);
    }
    // The shift divides by 1024.
    let time = 1024 * n * kn;
    let traffic = x * c * kd;
    assert((n * on) * kd == time * od) by (nonlinear_arith)
        requires
            kn * (od * 1024) == on * kd,
            time == 1024 * n * kn,
    ;
    assert((x * c * od) * kd == traffic * od) by (nonlinear_arith)
        requires
            traffic == x * c * kd,
    ;
    assert((low * traffic) * od <= (high * time) * od) by (nonlinear_arith)
        requires
            low * (x * c * od) <= high * (n * on),
            (n * on) * kd == time * od,
            (x * c * od) * kd == traffic * od,
            kd > 0,
    ;
    lemma_cancel(low * traffic, high * time, od);
    assert((low * time) * od <= (high * traffic) * od) by (nonlinear_arith)
        requires
            low * (n * on) <= high * (x * c * od),
            (n * on) * kd == time * od,
            (x * c * od) * kd == traffic * od,
            kd > 0,
    ;
    lemma_cancel(low * time, high * traffic, od);
}

/// A graph is 1 KiB/s high, or a tenth higher than its peak, but for two parts in `TOP`. It is
/// never lower than either.
pub proof fn lemma_height_is_a_tenth_above(peak: Number)
    requires
        peak.is_normal(),
    ensures
        ({
            let h = height_for(peak);
            let (hn, hd) = (h.numerator(), h.denominator());
            let (pn, pd) = (peak.numerator(), peak.denominator());
            &&& hn >= hd
            &&& 11 * ((TOP - 1) * (pn * hd)) <= 10 * (TOP * (hn * pd))
            &&& hn == hd || 10 * (TOP * (hn * pd)) <= 11 * ((TOP + 2) * (pn * hd))
        }),
{
    let tenth = a_tenth_more();
    let raised = peak.times(tenth);
    let one = closest(1, 1);
    let height = height_for(peak);
    lemma_powers_of_two();
    lemma_scale_is_positive(2, peak.exponent);
    lemma_scale_is_positive(2, raised.exponent);
    lemma_scale_is_positive(2, one.exponent);
    crate::double::lemma_one();
    lemma_closest_is_normal(1, 1);
    assert(up(2, -52) == 1 && down(2, -52) == HALF);
    let (pn, pd) = (peak.numerator() as int, peak.denominator() as int);
    let (tn, td) = (tenth.numerator() as int, tenth.denominator() as int);
    let (rn, rd) = (raised.numerator() as int, raised.denominator() as int);
    let (hn, hd) = (height.numerator() as int, height.denominator() as int);
    let (en, ed) = (one.numerator() as int, one.denominator() as int);
    let t = TOP as int;
    assert(tn == 0x11_9999_9999_999A && td == HALF);
    assert(pd * td > 0) by (nonlinear_arith)
        requires
            pd > 0,
            td > 0,
    ;
    lemma_closest_error(peak.numerator() * tenth.numerator(), peak.denominator() * tenth.denominator());
    lemma_closest_is_normal(
        peak.numerator() * tenth.numerator(),
        peak.denominator() * tenth.denominator(),
    );
    lemma_order_is_by_value(raised, one);
    assert((t - 1) * (pn * tn * rd) <= t * (rn * (pd * td)) <= (t + 1) * (pn * tn * rd));
    assert(11 * ((t - 1) * (pn * rd)) <= 10 * (t * (rn * pd))) by (nonlinear_arith)
        requires
            (t - 1) * (pn * tn * rd) <= t * (rn * (pd * td)),
            11 * td <= 10 * tn,
            td > 0,
            pn >= 0,
            rd > 0,
            t > 1,
    ;
    if raised.at_most(one) {
        assert(rn * ed <= en * rd);
        assert(rn <= rd) by (nonlinear_arith)
            requires
                rn * ed <= en * rd,
                en == ed,
                ed > 0,
        ;
        let (x, y) = (11 * ((t - 1) * pn), 10 * (t * pd));
        assert(x * rd <= y * rd) by (nonlinear_arith)
            requires
                11 * ((t - 1) * (pn * rd)) <= 10 * (t * (rn * pd)),
                x == 11 * ((t - 1) * pn),
                y == 10 * (t * pd),
                rn <= rd,
                t > 0,
                pd > 0,
        ;
        lemma_cancel(x, y, rd);
        assert(11 * ((t - 1) * (pn * hd)) <= 10 * (t * (hn * pd))) by (nonlinear_arith)
            requires
                11 * ((t - 1) * pn) <= 10 * (t * pd),
                hn == hd,
                hd > 0,
        ;
    } else {
        assert(rn >= rd) by (nonlinear_arith)
            requires
                rn * ed > en * rd,
                en == ed,
                ed > 0,
        ;
        let z = pn * rd;
        assert(z >= 0) by (nonlinear_arith)
            requires
                z == pn * rd,
                pn >= 0,
                rd > 0,
        ;
        assert((10 * (t * (rn * pd))) * td <= (11 * ((t + 2) * z)) * td) by {
            assert((10 * (t * (rn * pd))) * td == 10 * (t * (rn * (pd * td)))) by (nonlinear_arith);
            assert(pn * tn * rd == tn * z) by (nonlinear_arith)
                requires
                    z == pn * rd,
            ;
            assert(10 * ((t + 1) * (tn * z)) <= (11 * ((t + 2) * z)) * td) by (nonlinear_arith)
                requires
                    z >= 0,
                    t == 0x20_0000_0000_0000,
                    td == 0x10_0000_0000_0000,
                    tn == 0x11_9999_9999_999A,
            ;
        }
        lemma_cancel(10 * (t * (rn * pd)), 11 * ((t + 2) * z), td);
    }
}

/// The top gridline is at most two and a half times as high as the graph has to reach.
pub proof fn lemma_graph_is_not_too_high(peak: Number, step: nat)
    requires
        peak.is_normal(),
        is_grid_step(step, peak),
    ensures
        2 * (GRID_PARTS * step * height_for(peak).denominator()) <= 5 * (1000 * height_for(
            peak,
        ).numerator()),
{
    let height = height_for(peak);
    let need = grid_need(peak);
    let r = choose|r: Round| #[trigger]
        r.is_ceiling_of(need.numerator(), need.denominator()) && r.power >= -3 && step == r.digit
            * power(10, (r.power + 3) as nat);
    lemma_height_is_a_tenth_above(peak);
    lemma_quarter(height);
    lemma_scale_is_positive(2, height.exponent);
    lemma_scale_is_positive(2, need.exponent);
    let (hn, hd) = (height.numerator() as int, height.denominator() as int);
    let (n, d) = (need.numerator() as int, need.denominator() as int);
    assert(n > 0) by (nonlinear_arith)
        requires
            4 * (n * hd) == hn * d,
            hn >= hd,
            hd > 0,
            d > 0,
    ;
    crate::round::lemma_ceiling_is_close(r, need.numerator(), need.denominator());
    let (u, v, g) = (up(10, r.power) as int, down(10, r.power) as int, r.digit as int);
    let k = power(10, (r.power + 3) as nat) as int;
    lemma_scale_adds(10, r.power, 3);
    lemma_scale_is_positive(10, r.power);
    assert(power(10, 3) == 1000) by {
        reveal_with_fuel(power, 4);
    }
    assert(k * v == u * 1000) by {
        assert(k * (v * 1) == 1 * (u * 1000));
    }
    let s = step as int;
    // In thousandths, the step is the round value.
    assert(s * v == 1000 * (g * u)) by (nonlinear_arith)
        requires
            s == g * k,
            k * v == u * 1000,
    ;
    assert(2 * ((g * u) * d) <= 5 * (n * v));
    assert((2 * (s * d)) * v <= (5 * (1000 * n)) * v) by (nonlinear_arith)
        requires
            s * v == 1000 * (g * u),
            2 * ((g * u) * d) <= 5 * (n * v),
    ;
    lemma_cancel(2 * (s * d), 5 * (1000 * n), v);
    assert((2 * (4 * s * hd)) * d <= (5 * (1000 * hn)) * d) by (nonlinear_arith)
        requires
            2 * (s * d) <= 5 * (1000 * n),
            4 * (n * hd) == hn * d,
            hd > 0,
    ;
    lemma_cancel(2 * (4 * s * hd), 5 * (1000 * hn), d);
}

/// Without traffic the rate is zero, however long it was measured.
pub proof fn lemma_no_bytes_are_no_rate(nanos: u64)
    ensures
        kib_of(Rate { bytes: 0, nanos }).numerator() == 0,
        Rate::none().bytes == 0,
        Rate::none().nanos > 0,
{
    let zero = Number { mantissa: 0, exponent: 0 };
    let s = seconds_of(nanos as nat);
    assert(0 * up(2, 0) == 0);
    assert(0 * s.denominator() == 0);
    assert(zero.over(s) == zero);
}

/// Up to 53 bits of bytes are divided by their time with one rounding, and the result is then
/// divided by 1024 without any.
pub proof fn lemma_rate_is_the_quotient(rate: Rate)
    requires
        rate.bytes < TOP,
        rate.nanos > 0,
    ensures
        ({
            let s = seconds_of(rate.nanos as nat);
            kib_of(rate) == closest(rate.bytes as nat * s.denominator(), s.numerator()).shifted(-10)
        }),
{
    let b = closest(rate.bytes as nat, 1);
    let s = seconds_of(rate.nanos as nat);
    let n = rate.bytes as nat;
    lemma_whole_numbers_are_kept(n);
    lemma_seconds_are_close(rate.nanos);
    lemma_scale_is_positive(2, b.exponent);
    let (sn, sd, bd) = (s.numerator(), s.denominator(), b.denominator());
    let (low, high) = ((TOP - 1) * (TOP - 1), TOP * TOP);
    let t = rate.nanos as int;
    assert(sn > 0) by (nonlinear_arith)
        requires
            low * (t * sd) <= high * (sn * SECOND),
            low > 0,
            t > 0,
            sd > 0,
    ;
    assert(bd * sn > 0 && (n * bd * sd) * sn == (n * sd) * (bd * sn)) by (nonlinear_arith)
        requires
            bd > 0,
            sn > 0,
    ;
    lemma_closest_is_by_value(n * bd * sd, bd * sn, n * sd, sn);
}

} // verus!
