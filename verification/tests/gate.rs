//! Gates, on a clock that the tests turn by hand.

use bandwidth_proxy::gate::{transfer_nanos, Gate, Phase, Wait, WaitAction, CATCH_UP, SECOND};
use bandwidth_proxy::proxy::{Direction, Limits, PerDirection};

const START: u64 = 100 * SECOND;
const MILLI: u64 = 1_000_000;

fn limits(enabled: bool, download: u64, upload: u64) -> Limits {
    Limits { enabled, bytes_per_second: PerDirection { download, upload } }
}

/// Sends one chunk through a gate and returns when it passed.
fn pass(gate: &mut Gate, bytes: usize, direction: Direction, now: u64, limits: Limits) -> u64 {
    let (mut wait, action) = Wait::begin(bytes, direction, limits);
    if action == WaitAction::Proceed {
        return now;
    }
    match wait.turn(gate, now, limits) {
        WaitAction::SleepUntil(deadline) => {
            assert_eq!(wait.elapsed(gate), WaitAction::Proceed);
            deadline.max(now)
        }
        other => panic!("{other:?}"),
    }
}

#[test]
fn upload_uses_its_own_rate() {
    let limits = limits(true, 1, 8192);
    let mut gate = Gate::default();
    let end = pass(&mut gate, 4096, Direction::Upload, START, limits);
    assert_eq!(end - START, 500 * MILLI);
}

#[test]
fn cap_is_shared_across_connections() {
    let limits = limits(true, 4096, 8192);
    let mut gate = Gate::default();
    let (mut first, _) = Wait::begin(4096, Direction::Download, limits);
    let (mut second, action) = Wait::begin(4096, Direction::Download, limits);
    assert_eq!(action, WaitAction::Queue);
    assert_eq!(
        first.turn(&mut gate, START, limits),
        WaitAction::SleepUntil(START + SECOND)
    );
    first.elapsed(&mut gate);
    assert_eq!(
        second.turn(&mut gate, START + SECOND, limits),
        WaitAction::SleepUntil(START + 2 * SECOND)
    );
    assert_eq!(second.elapsed(&mut gate), WaitAction::Proceed);
}

#[test]
fn disabling_limit_releases_pending_traffic() {
    let mut gate = Gate::default();
    let slow = limits(true, 1, 1);
    let (mut wait, _) = Wait::begin(4096, Direction::Download, slow);
    assert_eq!(
        wait.turn(&mut gate, START, slow),
        WaitAction::SleepUntil(START + 4096 * SECOND)
    );
    assert_eq!(wait.relimit(&mut gate, limits(false, 1, 1)), WaitAction::Proceed);
    assert_eq!(wait.phase, Phase::Passed);
    // Its gate is idle: the next chunk starts when it comes.
    assert_eq!(gate.start(START + 7), START + 7);
}

#[test]
fn changing_rate_releases_a_slow_pending_transfer() {
    let mut gate = Gate::default();
    let slow = limits(true, 1, 1);
    let (mut wait, _) = Wait::begin(4096, Direction::Download, slow);
    wait.turn(&mut gate, START, slow);
    assert_eq!(
        wait.relimit(&mut gate, limits(true, 4096, 1)),
        WaitAction::SleepUntil(START + SECOND)
    );
}

#[test]
fn changing_rate_keeps_time_already_waited() {
    let mut gate = Gate::default();
    let slow = limits(true, 1024, 1);
    let (mut wait, _) = Wait::begin(4096, Direction::Download, slow);
    assert_eq!(
        wait.turn(&mut gate, START, slow),
        WaitAction::SleepUntil(START + 4 * SECOND)
    );
    // One second later, the rate doubles.
    assert_eq!(
        wait.relimit(&mut gate, limits(true, 2048, 1)),
        WaitAction::SleepUntil(START + 2 * SECOND)
    );
}

#[test]
fn late_wake_ups_do_not_accumulate() {
    let limits = limits(true, 4096, 1);
    let mut gate = Gate::default();
    let mut now = START;
    for _ in 0..4 {
        now = pass(&mut gate, 4096, Direction::Download, now, limits);
        now += 20 * MILLI;
    }
    assert_eq!(now - START, 4020 * MILLI);
}

#[test]
fn sustained_concurrent_transfers_share_one_budget() {
    let limits = limits(true, 8192, 4096);
    let mut gate = Gate::default();
    let mut now = START;
    let mut remaining = [8; 4];
    while remaining.iter().any(|count| *count > 0) {
        for count in &mut remaining {
            now = pass(&mut gate, 4096, Direction::Download, now, limits);
            *count -= 1;
        }
    }
    assert_eq!(now - START, 16 * SECOND);
}

#[test]
fn sustained_rate_holds_with_late_timers() {
    // Every sleep ends up to a timer tick late.
    let limits = limits(true, 1024 * 1024, 1);
    let mut gate = Gate::default();
    let mut now = START;
    for index in 0..64 {
        let end = pass(&mut gate, 4096, Direction::Download, now, limits);
        if end > now {
            now = end + (index * 7 % 16) * MILLI;
        }
    }
    let elapsed = now - START;
    assert!(elapsed >= 250 * MILLI, "{elapsed}");
    assert!(elapsed < 266 * MILLI, "{elapsed}");
}

#[test]
fn an_idle_gate_earns_no_more_than_the_catch_up() {
    let limits = limits(true, 1000, 1);
    let mut gate = Gate::default();
    assert_eq!(gate.start(START), START);
    let end = pass(&mut gate, 1000, Direction::Download, START, limits);
    assert_eq!(end, START + SECOND);
    // Long after, the next chunk starts at most the catch-up in the past.
    assert_eq!(gate.start(START + 10 * SECOND), START + 10 * SECOND - CATCH_UP);
    assert_eq!(gate.start(end + 10), end);
    assert_eq!(gate.start(end - 10), end);
    // A clock too young to look back that far looks back not at all.
    let mut young = Gate::default();
    pass(&mut young, 1, Direction::Download, 0, limits);
    assert_eq!(young.start(CATCH_UP - 1), CATCH_UP - 1);
    assert_eq!(young.start(CATCH_UP), MILLI);
}

#[test]
fn transfer_times_are_rounded_to_nanoseconds() {
    assert_eq!(transfer_nanos(4096, 8192), 500_000_000);
    assert_eq!(transfer_nanos(1, 3), 333_333_333);
    assert_eq!(transfer_nanos(2, 3), 666_666_667);
    assert_eq!(transfer_nanos(0, 1), 0);
    assert_eq!(transfer_nanos(4096, u64::MAX), 0);
    // In double precision these lie just above and just below a half.
    assert_eq!(transfer_nanos(1, 2_000_000_000), 1);
    assert_eq!(transfer_nanos(3, 2_000_000_000), 1);
}

#[test]
fn transfer_times_are_those_of_double_precision() {
    for (bytes, rate) in [(1, 2_000_000_000), (3, 2_000_000_000), (1, 3), (4096, u64::MAX)] {
        let time = std::time::Duration::from_secs_f64(bytes as f64 / rate as f64);
        assert_eq!(transfer_nanos(bytes, rate), time.as_nanos(), "{bytes} {rate}");
    }
    let mut state: u64 = 3;
    for _ in 0..20_000 {
        state = state.wrapping_mul(6364136223846793005).wrapping_add(1442695040888963407);
        let bytes = (state >> 40) as usize;
        state = state.wrapping_mul(6364136223846793005).wrapping_add(1442695040888963407);
        let rate = (state >> (state >> 58)).max(1);
        let time = std::time::Duration::from_secs_f64(bytes as f64 / rate as f64);
        assert_eq!(transfer_nanos(bytes, rate), time.as_nanos(), "{bytes} {rate}");
    }
}

#[test]
fn a_faster_rate_is_never_later() {
    for (slow, fast) in [(1, 2), (1000, 1001), (7, 4096)] {
        assert!(transfer_nanos(4096, fast) <= transfer_nanos(4096, slow));
    }
}

#[test]
fn a_chunk_passes_at_once_without_limits() {
    let (wait, action) = Wait::begin(4096, Direction::Download, limits(false, 1, 1));
    assert_eq!(action, WaitAction::Proceed);
    assert_eq!(wait.phase, Phase::Passed);
    let (mut queued, _) = Wait::begin(4096, Direction::Download, limits(true, 1, 1));
    assert_eq!(queued.requeue(limits(true, 2, 1)), WaitAction::Queue);
    assert_eq!(queued.requeue(limits(false, 2, 1)), WaitAction::Proceed);
}

#[test]
fn a_chunk_passes_when_limits_can_no_longer_change() {
    let slow = limits(true, 1, 1);
    let mut gate = Gate::default();
    pass(&mut gate, 1, Direction::Download, START, slow);
    let (mut wait, _) = Wait::begin(4096, Direction::Download, slow);
    wait.turn(&mut gate, START + SECOND, slow);
    assert_eq!(wait.closed(), WaitAction::Proceed);
    assert_eq!(wait.phase, Phase::Passed);
    // Its gate is still held up by the chunk before.
    assert_eq!(gate.start(START), START + SECOND);
}

#[test]
fn a_rate_of_zero_counts_as_one() {
    let limits = limits(true, 0, 0);
    assert_eq!(limits.rate(Direction::Download), Some(1));
    let mut gate = Gate::default();
    let end = pass(&mut gate, 2, Direction::Download, START, limits);
    assert_eq!(end, START + 2 * SECOND);
}
