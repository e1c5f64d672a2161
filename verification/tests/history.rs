//! The traffic history of a run, and the graph of it.

use bandwidth_proxy::gate::SECOND;
use bandwidth_proxy::double::{seconds, whole, Double};
use bandwidth_proxy::graph::{
    empty_text, format_clock, format_rate, grid_label, grid_step, kib_per_second, nearest, peak,
    push_sample, ticks, time_span, visible_range, whole_seconds, Rate, Sample, MAX_SAMPLES,
    SAMPLE_NANOS,
};
use bandwidth_proxy::proxy::{Level, Limits, PerDirection, Stats};
use bandwidth_proxy::round::{nice_ceiling, Nice};
use bandwidth_proxy::session::{finish_run, RunError, Session, Status, Worker};
use std::collections::VecDeque;

const IDLE: Rate = Rate { bytes: 0, nanos: SECOND };

fn kib(amount: u64) -> Rate {
    Rate { bytes: amount * 1024, nanos: SECOND }
}

fn sample(at: u64, download: Rate, upload: Rate) -> Sample {
    Sample { at, kib_per_second: PerDirection { download, upload } }
}

fn history(seconds: &[u64]) -> VecDeque<Sample> {
    seconds.iter().map(|at| sample(at * SECOND, IDLE, IDLE)).collect()
}

fn limits(download: u64) -> Limits {
    Limits { enabled: true, bytes_per_second: PerDirection { download, upload: 1 } }
}

#[test]
fn history_is_bounded() {
    let mut samples = VecDeque::new();
    for index in 0..MAX_SAMPLES + 10 {
        push_sample(&mut samples, sample(index as u64, IDLE, IDLE));
    }
    assert_eq!(samples.len(), MAX_SAMPLES);
    assert_eq!(samples.front().unwrap().at, 10);
}

#[test]
fn gridlines_round_up() {
    assert_eq!(nice_ceiling(whole(3)), Nice { digit: 5, power: 0 });
    assert_eq!(nice_ceiling(whole(12)), Nice { digit: 2, power: 1 });
    assert_eq!(format_clock(3725), "1:02:05");
}

/// A positive float as the library holds it.
fn double(value: f64) -> Double {
    let bits = value.to_bits();
    let (fraction, exponent) = (bits & ((1 << 52) - 1), (bits >> 52) as i64);
    let (mut mantissa, mut exponent) = if exponent == 0 {
        (fraction, -1074)
    } else {
        (fraction | 1 << 52, exponent - 1075)
    };
    while mantissa < 1 << 52 {
        mantissa *= 2;
        exponent -= 1;
    }
    Double { mantissa, exponent }
}

#[test]
fn gridlines_land_on_round_values() {
    for (value, digit, power) in [
        (1.0, 1, 0),
        (2.0, 2, 0),
        (5.0, 5, 0),
        (6.0, 1, 1),
        (10.0, 1, 1),
        (11.0, 2, 1),
        (21.0, 5, 1),
        (51.0, 1, 2),
        (1001.0, 2, 3),
        (0.5, 5, -1),
        (0.25, 5, -1),
        (0.125, 2, -1),
        (0.0625, 1, -1),
        (1.0 / 3.0, 5, -1),
        (0.007, 1, -2),
        (1.5e-9, 2, -9),
        (1e22, 1, 22),
        (3e300, 5, 300),
        (f64::MAX, 2, 308),
        (f64::MIN_POSITIVE, 5, -308),
        (5e-324, 5, -324),
    ] {
        assert_eq!(nice_ceiling(double(value)), Nice { digit, power }, "{value}");
    }
}

#[test]
fn numbers_are_those_of_double_precision() {
    fn value(number: Double) -> f64 {
        number.mantissa as f64 * 2_f64.powi(number.exponent as i32)
    }
    let mut state: u64 = 7;
    let mut random = |bits: u32| {
        state = state.wrapping_mul(6364136223846793005).wrapping_add(1442695040888963407);
        let low = state >> 32;
        state = state.wrapping_mul(6364136223846793005).wrapping_add(1442695040888963407);
        (low ^ (state & !0xffff_ffff)) >> (64 - bits)
    };
    for round in 0..20_000_u32 {
        let bytes = random(1 + round % 64);
        let nanos = random(1 + round / 7 % 64).max(1);
        let elapsed = std::time::Duration::from_nanos(nanos).as_secs_f64();
        assert_eq!(value(whole(bytes)), bytes as f64);
        assert_eq!(value(seconds(nanos)), elapsed);
        assert_eq!(whole_seconds(nanos), elapsed as u64);
        let kib = bytes as f64 / elapsed / 1024.0;
        let rate = Rate { bytes, nanos };
        assert_eq!(value(kib_per_second(rate)), kib);
        let text = if kib >= 1024.0 {
            format!("{:.1} MiB/s", kib / 1024.0)
        } else {
            format!("{kib:.1} KiB/s")
        };
        assert_eq!(format_rate(rate), text);
    }
}

#[test]
fn clocks_leave_out_hours_that_are_not_there() {
    assert_eq!(format_clock(0), "0:00");
    assert_eq!(format_clock(9), "0:09");
    assert_eq!(format_clock(75), "1:15");
    assert_eq!(format_clock(3599), "59:59");
    assert_eq!(format_clock(3600), "1:00:00");
    assert_eq!(format_clock(360_000), "100:00:00");
}

#[test]
fn rates_have_one_decimal() {
    assert_eq!(format_rate(IDLE), "0.0 KiB/s");
    assert_eq!(format_rate(kib(128)), "128.0 KiB/s");
    assert_eq!(format_rate(Rate { bytes: 1536, nanos: SECOND }), "1.5 KiB/s");
    assert_eq!(format_rate(Rate { bytes: 1024, nanos: SECOND / 2 }), "2.0 KiB/s");
    assert_eq!(format_rate(kib(1023)), "1023.0 KiB/s");
    assert_eq!(format_rate(kib(1024)), "1.0 MiB/s");
    assert_eq!(format_rate(kib(1536)), "1.5 MiB/s");
    // Just under a MiB/s rounds up, but stays in KiB/s.
    let nearly = Rate { bytes: 1024 * 1024 - 1, nanos: SECOND };
    assert_eq!(format_rate(nearly), "1024.0 KiB/s");
    // The quotient in double precision lies just above the half.
    assert_eq!(format_rate(Rate { bytes: 256, nanos: 5 * SECOND }), "0.1 KiB/s");
    // Halfway goes to the even digit, as it does for a number of the same value.
    for bytes in [256_u64, 768, 1280] {
        let value = bytes as f64 / 1024.0;
        assert_eq!(format_rate(Rate { bytes, nanos: SECOND }), format!("{value:.1} KiB/s"));
    }
}

#[test]
fn visible_samples_have_a_neighbour_on_each_side() {
    let samples = history(&[0, 10, 20, 30, 40]);
    assert_eq!(visible_range(&samples, 15 * SECOND, 25 * SECOND), (1, 4));
    assert_eq!(visible_range(&samples, 20 * SECOND, 20 * SECOND), (1, 4));
    assert_eq!(visible_range(&samples, 0, 100 * SECOND), (0, 5));
    assert_eq!(visible_range(&samples, 90 * SECOND, 100 * SECOND), (4, 5));
    assert_eq!(visible_range(&samples, 0, u64::MAX), (0, 5));
    for from in 0..50 {
        for to in from..50 {
            let (first, end) = visible_range(&samples, from * SECOND, to * SECOND);
            assert!(first <= end);
        }
    }
    assert_eq!(visible_range(&VecDeque::new(), 0, 10), (0, 0));
}

#[test]
fn the_pointer_finds_the_nearest_sample() {
    let samples = history(&[0, 10, 20]);
    assert_eq!(nearest(&samples, 4 * SECOND), Some(0));
    // The earlier one where both are as near.
    assert_eq!(nearest(&samples, 5 * SECOND), Some(0));
    assert_eq!(nearest(&samples, 6 * SECOND), Some(1));
    assert_eq!(nearest(&samples, 10 * SECOND), Some(1));
    assert_eq!(nearest(&samples, 99 * SECOND), Some(2));
    assert_eq!(nearest(&VecDeque::new(), 5), None);
}

#[test]
fn the_time_axis_spans_the_samples() {
    assert_eq!(time_span(&VecDeque::new()), (0, 0));
    assert_eq!(time_span(&history(&[7])), (7 * SECOND, 0));
    assert_eq!(time_span(&history(&[7, 8, 30])), (7 * SECOND, 23 * SECOND));
    assert_eq!(ticks(0, 25 * SECOND), [0, 10, 20]);
    assert_eq!(ticks(1, 30 * SECOND), [10, 20, 30]);
    assert_eq!(ticks(11 * SECOND, 19 * SECOND), Vec::<u64>::new());
    assert_eq!(ticks(20 * SECOND, 10 * SECOND), Vec::<u64>::new());
}

#[test]
fn the_graph_reaches_above_its_peak() {
    let samples: VecDeque<Sample> = [
        sample(0, kib(10), kib(20)),
        sample(SECOND, kib(100), kib(3)),
        sample(2 * SECOND, kib(7), kib(40)),
    ]
    .into_iter()
    .collect();
    assert_eq!(peak(&samples, 0, 3, None), whole(100));
    assert_eq!(peak(&samples, 2, 3, None), whole(40));
    assert_eq!(peak(&samples, 1, 1, None), whole(0));
    let caps = PerDirection { download: 64, upload: 128 };
    assert_eq!(peak(&samples, 0, 3, Some(caps)), whole(128));
    // Half as many bytes in a quarter of the time are twice as much.
    let uneven = Rate { bytes: 512, nanos: SECOND / 4 };
    let samples: VecDeque<Sample> = [sample(0, uneven, kib(1))].into_iter().collect();
    assert_eq!(peak(&samples, 0, 1, None), whole(2));
    // 110 in four parts is 27.5, so gridlines are 50 apart.
    let step = grid_step(whole(100));
    assert_eq!(step, 50_000);
    assert_eq!(grid_label(step, 0), "0.0 KiB/s");
    assert_eq!(grid_label(step, 1), "50.0 KiB/s");
    assert_eq!(grid_label(step, 4), "200.0 KiB/s");
    assert_eq!(grid_step(whole(0)), 500);
    assert_eq!(grid_label(500, 3), "1.5 KiB/s");
    assert_eq!(grid_label(grid_step(whole(4096)), 4), "7.8 MiB/s");
}

#[test]
fn gridlines_are_those_of_double_precision() {
    fn ceiling(value: f64) -> f64 {
        let magnitude = 10_f64.powf(value.log10().floor());
        [1.0, 2.0, 5.0, 10.0]
            .into_iter()
            .map(|step| step * magnitude)
            .find(|candidate| *candidate >= value)
            .unwrap_or(10.0 * magnitude)
    }
    fn text(kib: f64) -> String {
        if kib >= 1024.0 {
            format!("{:.1} MiB/s", kib / 1024.0)
        } else {
            format!("{kib:.1} KiB/s")
        }
    }
    let mut state: u64 = 11;
    for round in 0..5_000_u64 {
        state = state.wrapping_mul(6364136223846793005).wrapping_add(1442695040888963407);
        let bytes = (state >> 8) >> (round % 50);
        let nanos = SAMPLE_NANOS + (state >> 40) * (round % 3);
        let elapsed = std::time::Duration::from_nanos(nanos).as_secs_f64();
        let highest = bytes as f64 / elapsed / 1024.0;
        let max = 4.0 * ceiling((highest * 1.1).max(1.0) / 4.0);
        let rate = Rate { bytes, nanos };
        let samples: VecDeque<Sample> = [sample(0, rate, IDLE)].into_iter().collect();
        let step = grid_step(peak(&samples, 0, 1, None));
        assert_eq!(4.0 * (step as f64 / 1000.0), max, "{bytes} {nanos}");
        for index in 0..=4_u32 {
            let label = text(max * f64::from(index) / 4.0);
            assert_eq!(grid_label(step, u64::from(index)), label);
        }
    }
    for exponent in -20..=20_i32 {
        for tenth in 10..100_u32 {
            let value = f64::from(tenth) * 10_f64.powi(exponent) * 1.003;
            let nice = nice_ceiling(double(value));
            let rounded = format!("{}e{}", nice.digit, nice.power).parse::<f64>().unwrap();
            assert!((rounded / ceiling(value) - 1.0).abs() < 1e-12, "{value}");
        }
    }
    // A peak whose tenth more is a round value in theory, and just above it in double
    // precision.
    let rate = Rate { bytes: 4096 * 10, nanos: 11 * SECOND };
    let samples: VecDeque<Sample> = [sample(0, rate, IDLE)].into_iter().collect();
    let highest = rate.bytes as f64 / 11.0 / 1024.0;
    let max = 4.0 * ceiling((highest * 1.1).max(1.0) / 4.0);
    assert_eq!(grid_step(peak(&samples, 0, 1, None)) as f64 / 250.0, max);
}

#[test]
fn an_empty_graph_says_why() {
    assert_eq!(empty_text(true), "Waiting for traffic samples...");
    assert_eq!(empty_text(false), "Start the proxy to see traffic.");
}

#[test]
fn a_run_goes_through_its_states() {
    let (mut session, mut stats) = Session::start(7, limits(1024));
    let status = stats.status().unwrap();
    assert_eq!(
        (status.at, status.level, status.text.as_str()),
        (7, Level::Info, "Starting listener and resolving destination...")
    );
    assert!(session.running());
    assert_eq!(session.status(false), Status::Starting);
    assert_eq!(session.status(true), Status::Listening);
    session.stop();
    assert_eq!(session.status(true), Status::Stopping);
    session.reap(Worker::Running, &mut stats, 8);
    assert!(session.running());
    session.reap(Worker::Finished, &mut stats, 9);
    assert!(!session.running());
    assert_eq!(session.status(true), Status::Offline);
    assert_eq!(stats.events().len(), 1);
    let labels: Vec<_> =
        [Status::Offline, Status::Starting, Status::Listening, Status::Stopping]
            .iter()
            .map(|status| status.label())
            .collect();
    assert_eq!(labels, ["Offline", "Starting", "Listening", "Stopping"]);
}

#[test]
fn a_lost_worker_is_reported_once() {
    let (mut session, mut stats) = Session::start(0, limits(1024));
    stats.set_listening(true);
    session.reap(Worker::Panicked, &mut stats, 5);
    assert!(!session.running());
    assert!(!stats.listening);
    let status = stats.status().unwrap();
    assert_eq!(
        (status.at, status.level, status.text.as_str()),
        (5, Level::Error, "Proxy worker stopped unexpectedly.")
    );
    session.reap(Worker::Panicked, &mut stats, 6);
    assert_eq!(stats.events().len(), 2);
}

#[test]
fn the_end_of_a_run_is_recorded() {
    for (result, text) in [
        (Ok(()), None),
        (
            Err(RunError::Runtime("no threads".to_string())),
            Some("Runtime error: no threads"),
        ),
        (Err(RunError::Proxy("in use".to_string())), Some("Proxy error: in use")),
    ] {
        let mut stats = Stats::default();
        stats.set_listening(true);
        finish_run(&mut stats, 3, result);
        assert!(!stats.listening);
        match text {
            Some(text) => {
                let status = stats.status().unwrap();
                assert_eq!((status.level, status.text.as_str()), (Level::Error, text));
            }
            None => assert!(stats.status().is_none()),
        }
    }
}

#[test]
fn limits_are_handed_on_when_they_change() {
    let (mut session, _) = Session::start(0, limits(1024));
    assert!(!session.set_limits(limits(1024)));
    assert!(session.set_limits(limits(2048)));
    assert!(!session.set_limits(limits(2048)));
}

#[test]
fn samples_count_every_byte() {
    let (mut session, _) = Session::start(SECOND, limits(1024));
    session.sample(SECOND + SAMPLE_NANOS - 1, PerDirection { download: 9, upload: 9 });
    assert!(session.samples.is_empty());
    assert_eq!(session.totals, PerDirection { download: 0, upload: 0 });
    session.sample(SECOND + SAMPLE_NANOS, PerDirection { download: 512, upload: 0 });
    session.sample(3 * SECOND, PerDirection { download: 2048, upload: 100 });
    assert_eq!(session.samples.len(), 2);
    assert_eq!(session.totals, PerDirection { download: 2048, upload: 100 });
    assert_eq!(
        session.samples[0],
        sample(
            SAMPLE_NANOS,
            Rate { bytes: 512, nanos: SAMPLE_NANOS },
            Rate { bytes: 0, nanos: SAMPLE_NANOS }
        )
    );
    assert_eq!(format_rate(session.samples[0].kib_per_second.download), "1.0 KiB/s");
    assert_eq!(
        session.samples[1],
        sample(
            2 * SECOND,
            Rate { bytes: 1536, nanos: 3 * SAMPLE_NANOS },
            Rate { bytes: 100, nanos: 3 * SAMPLE_NANOS }
        )
    );
    assert_eq!(session.samples().len(), 2);
    assert_eq!(session.totals().upload, 100);
    assert_eq!(session.started(), SECOND);
    let counted: u64 =
        session.samples.iter().map(|sample| sample.kib_per_second.download.bytes).sum();
    assert_eq!(counted, 2048);
}

#[test]
fn a_run_that_is_over_is_not_sampled() {
    let (mut session, mut stats) = Session::start(0, limits(1024));
    session.reap(Worker::Finished, &mut stats, 1);
    session.sample(9 * SECOND, PerDirection { download: 1, upload: 1 });
    assert!(session.samples.is_empty());
}
