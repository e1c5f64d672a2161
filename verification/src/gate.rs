//! A gate that every chunk passes before it is forwarded. One gate serves all
//! connections in one direction, so connection pooling cannot multiply the
//! configured bandwidth allowance.
//!
//! Times are nanoseconds on one clock that never runs backwards.

use crate::proxy::{Direction, Limits};
use crate::double::{closest, lemma_closest_error, lemma_closest_is_monotone, lemma_closest_is_normal, lemma_order_is_by_value, lemma_quotients_are_rounded_once, whole, TOP};
use crate::text::{divide_rounded, lemma_rounded_is_monotone, lemma_rounded_is_nearest, rounded};
use vstd::prelude::*;

verus! {

/// Timer wake-ups can run late, about 15.6 ms on some systems. Later chunks may
/// start up to this far in the past to pay that time back, so it exceeds the tick.
pub const CATCH_UP: u64 = 50_000_000;

/// Nanoseconds in a second.
pub const SECOND: u64 = 1_000_000_000;

/// How many nanoseconds `bytes` take at `rate` bytes per second: the quotient in double
/// precision, rounded to the nearest nanosecond.
pub open spec fn transfer_time(bytes: nat, rate: nat) -> nat {
    closest(bytes, 1).over(closest(rate, 1)).times_rounded(SECOND as nat)
}

/// The earliest time at which a transfer that gets its turn at `now` may start.
pub open spec fn earliest_start(now: int) -> int {
    if now >= CATCH_UP {
        now - CATCH_UP
    } else {
        now
    }
}

/// When a transfer starts that gets its turn at `now` from a gate that is free
/// since `next_free`, or that was idle.
pub open spec fn start_time(next_free: Option<int>, now: int) -> int {
    match next_free {
        Some(free) => if free < earliest_start(now) {
            earliest_start(now)
        } else {
            free
        },
        None => now,
    }
}

/// How many nanoseconds `bytes` take at `rate` bytes per second.
pub fn transfer_nanos(bytes: usize, rate: u64) -> (nanos: u128)
    requires
        rate > 0,
    ensures
        nanos == transfer_time(bytes as nat, rate as nat),
{
    let seconds = whole(bytes as u64).divide(whole(rate));
    // The quotient is below the number of bytes, so it leaves room for the factor.
    let (n, d) = seconds.fraction();
    divide_rounded(n * SECOND as u128, d)
}

/// A gate: when the last transfer that it let through was over, if limits have
/// been on since.
#[derive(Debug)]
pub struct Gate {
    next_free: Option<u64>,
}

impl View for Gate {
    type V = Option<int>;

    closed spec fn view(&self) -> Option<int> {
        match self.next_free {
            Some(free) => Some(free as int),
            None => None,
        }
    }
}

impl Default for Gate {
    fn default() -> (gate: Self)
        ensures
            gate@ is None,
    {
        Gate { next_free: None }
    }
}

impl Gate {
    /// When a transfer starts that gets its turn at `now`.
    pub fn start(&self, now: u64) -> (start: u64)
        ensures
            start == start_time(self@, now as int),
    {
        let earliest: u64 = if now >= CATCH_UP {
            now - CATCH_UP
        } else {
            now
        };
        match self.next_free {
            Some(free) => if free < earliest {
                earliest
            } else {
                free
            },
            None => now,
        }
    }
}

/// What the caller of a `Wait` does next.
#[derive(Clone, Copy, Debug, PartialEq, Eq, Structural)]
pub enum WaitAction {
    /// Wait for its gate or for a change of the limits, whichever comes first.
    Queue,
    /// Keep its gate, and sleep until this time or until the limits change.
    SleepUntil(u64),
    /// Give its gate back, if it is held, and forward the chunk.
    Proceed,
}

/// Where a chunk stands.
#[derive(Clone, Copy, Debug, PartialEq, Eq, Structural)]
pub enum Phase {
    /// Waiting for its turn.
    Queued,
    /// Holding its gate, which it leaves at `deadline`.
    Holding { start: u64, deadline: u64 },
    /// Through.
    Passed,
}

/// One chunk on its way through a gate.
#[derive(Debug)]
pub struct Wait {
    pub bytes: usize,
    pub direction: Direction,
    pub phase: Phase,
}

impl Wait {
    /// The clock reaches the time at which the chunk passes, at the current limits.
    pub open spec fn fits(self, start: int, limits: Limits) -> bool {
        match limits.rate_of(self.direction) {
            Some(rate) => start + transfer_time(self.bytes as nat, rate as nat) <= u64::MAX,
            None => true,
        }
    }

    /// What a chunk that holds its gate since `start` does at `limits`: it sleeps
    /// out its own time, counted from `start`, or passes and leaves its gate idle.
    pub open spec fn scheduled(self, next_free: Option<int>, start: int, limits: Limits) -> (
        Phase,
        Option<int>,
        WaitAction,
    ) {
        match limits.rate_of(self.direction) {
            Some(rate) => {
                let deadline = (start + transfer_time(self.bytes as nat, rate as nat)) as u64;
                (
                    Phase::Holding { start: start as u64, deadline },
                    next_free,
                    WaitAction::SleepUntil(deadline),
                )
            },
            None => (Phase::Passed, None, WaitAction::Proceed),
        }
    }

    /// A chunk of `bytes` bytes that arrives while the limits are `limits`.
    pub fn begin(bytes: usize, direction: Direction, limits: Limits) -> (res: (Wait, WaitAction))
        ensures
            res.0.bytes == bytes,
            res.0.direction == direction,
            limits.rate_of(direction) is Some ==> res.0.phase == Phase::Queued && res.1
                == WaitAction::Queue,
            limits.rate_of(direction) is None ==> res.0.phase == Phase::Passed && res.1
                == WaitAction::Proceed,
    {
        let mut wait = Wait { bytes, direction, phase: Phase::Queued };
        let action = wait.requeue(limits);
        (wait, action)
    }

    /// The limits changed to `limits` while the chunk waited for its turn.
    pub fn requeue(&mut self, limits: Limits) -> (action: WaitAction)
        requires
            old(self).phase == Phase::Queued,
        ensures
            final(self).bytes == old(self).bytes,
            final(self).direction == old(self).direction,
            limits.rate_of(old(self).direction) is Some ==> final(self).phase == Phase::Queued
                && action == WaitAction::Queue,
            limits.rate_of(old(self).direction) is None ==> final(self).phase == Phase::Passed
                && action == WaitAction::Proceed,
    {
        match limits.rate(self.direction) {
            Some(_) => WaitAction::Queue,
            None => {
                self.phase = Phase::Passed;
                WaitAction::Proceed
            },
        }
    }

    /// The chunk gets its turn at `now`.
    pub fn turn(&mut self, gate: &mut Gate, now: u64, limits: Limits) -> (action: WaitAction)
        requires
            old(self).phase == Phase::Queued,
            old(self).fits(start_time(old(gate)@, now as int), limits),
        ensures
            final(self).bytes == old(self).bytes,
            final(self).direction == old(self).direction,
            (final(self).phase, final(gate)@, action) == old(self).scheduled(
                old(gate)@,
                start_time(old(gate)@, now as int),
                limits,
            ),
    {
        let start: u64 = gate.start(now);
        self.schedule(gate, start, limits)
    }

    /// The limits changed to `limits` while the chunk held its gate. Time that it
    /// has already waited counts at the new rate too.
    pub fn relimit(&mut self, gate: &mut Gate, limits: Limits) -> (action: WaitAction)
        requires
            old(self).phase is Holding,
            old(self).fits(old(self).phase->start as int, limits),
        ensures
            final(self).bytes == old(self).bytes,
            final(self).direction == old(self).direction,
            (final(self).phase, final(gate)@, action) == old(self).scheduled(
                old(gate)@,
                old(self).phase->start as int,
                limits,
            ),
    {
        match self.phase {
            Phase::Holding { start, .. } => self.schedule(gate, start, limits),
            _ => WaitAction::Proceed,
        }
    }

    fn schedule(&mut self, gate: &mut Gate, start: u64, limits: Limits) -> (action: WaitAction)
        requires
            old(self).fits(start as int, limits),
        ensures
            final(self).bytes == old(self).bytes,
            final(self).direction == old(self).direction,
            (final(self).phase, final(gate)@, action) == old(self).scheduled(
                old(gate)@,
                start as int,
                limits,
            ),
    {
        match limits.rate(self.direction) {
            Some(rate) => {
                let nanos: u128 = transfer_nanos(self.bytes, rate);
                let deadline: u64 = start + nanos as u64;
                self.phase = Phase::Holding { start, deadline };
                WaitAction::SleepUntil(deadline)
            },
            None => {
                gate.next_free = None;
                self.phase = Phase::Passed;
                WaitAction::Proceed
            },
        }
    }

    /// The chunk has slept until its deadline, where the next one may start.
    pub fn elapsed(&mut self, gate: &mut Gate) -> (action: WaitAction)
        requires
            old(self).phase is Holding,
        ensures
            final(self).bytes == old(self).bytes,
            final(self).direction == old(self).direction,
            final(self).phase == Phase::Passed,
            final(gate)@ == Some(old(self).phase->deadline as int),
            action == WaitAction::Proceed,
    {
        match self.phase {
            Phase::Holding { deadline, .. } => {
                gate.next_free = Some(deadline);
            },
            _ => {},
        }
        self.phase = Phase::Passed;
        WaitAction::Proceed
    }

    /// Nobody can change the limits any more: the chunk passes at once, and a gate
    /// that it holds stays as it was.
    pub fn closed(&mut self) -> (action: WaitAction)
        ensures
            final(self).bytes == old(self).bytes,
            final(self).direction == old(self).direction,
            final(self).phase == Phase::Passed,
            action == WaitAction::Proceed,
    {
        self.phase = Phase::Passed;
        WaitAction::Proceed
    }
}

/// A chunk that passed a gate: when it got its turn, its size, and the rate at
/// which it was let through.
pub struct Passage {
    pub now: int,
    pub bytes: nat,
    pub rate: nat,
}

/// When a gate is free after the chunks in `passages` have gone through, in order.
pub open spec fn free_after(next_free: Option<int>, passages: Seq<Passage>) -> Option<int>
    decreases passages.len(),
{
    if passages.len() == 0 {
        next_free
    } else {
        let before = free_after(next_free, passages.drop_last());
        let last = passages.last();
        Some(start_time(before, last.now) + transfer_time(last.bytes, last.rate))
    }
}

/// A chunk that got its turn at `now` and slept out its time at `limits` leaves the
/// gate free at its deadline, as `free_after` counts it.
pub proof fn lemma_one_passage(wait: Wait, next_free: Option<int>, now: u64, limits: Limits)
    requires
        limits.rate_of(wait.direction) is Some,
        wait.fits(start_time(next_free, now as int), limits),
        0 <= start_time(next_free, now as int),
    ensures
        ({
            let (phase, _, _) = wait.scheduled(
                next_free,
                start_time(next_free, now as int),
                limits,
            );
            let passage = Passage {
                now: now as int,
                bytes: wait.bytes as nat,
                rate: limits.rate_of(wait.direction)->0 as nat,
            };
            free_after(next_free, seq![passage]) == Some(phase->deadline as int)
        }),
{
    let passage = Passage {
        now: now as int,
        bytes: wait.bytes as nat,
        rate: limits.rate_of(wait.direction)->0 as nat,
    };
    assert(seq![passage].drop_last() =~= Seq::empty());
    reveal_with_fuel(free_after, 2);
}

/// How long the chunks in `passages` take one after the other.
pub open spec fn total_time(passages: Seq<Passage>) -> nat
    decreases passages.len(),
{
    if passages.len() == 0 {
        0
    } else {
        let last = passages.last();
        total_time(passages.drop_last()) + transfer_time(last.bytes, last.rate)
    }
}

/// How many bytes the chunks in `passages` hold.
pub open spec fn total_bytes(passages: Seq<Passage>) -> nat
    decreases passages.len(),
{
    if passages.len() == 0 {
        0
    } else {
        total_bytes(passages.drop_last()) + passages.last().bytes
    }
}

/// However many connections send them, chunks that pass one gate take at least as
/// long as they would one after the other: the cap is shared.
pub proof fn lemma_passages_do_not_overlap(next_free: Option<int>, passages: Seq<Passage>)
    requires
        passages.len() > 0,
    ensures
        free_after(next_free, passages) is Some,
        free_after(next_free, passages)->0 >= start_time(next_free, passages[0].now) + total_time(
            passages,
        ),
    decreases passages.len(),
{
    let before = passages.drop_last();
    if before.len() == 0 {
        assert(total_time(before) == 0);
        assert(free_after(next_free, before) == next_free);
    } else {
        lemma_passages_do_not_overlap(next_free, before);
        assert(before[0] == passages[0]);
    }
}

/// A transfer takes the time that its bytes need at the rate, but for three parts in
/// `TOP` that double precision may lose or four that it may add, and half a nanosecond
/// of rounding.
pub proof fn lemma_transfer_time_is_near(bytes: nat, rate: nat)
    requires
        rate > 0,
    ensures
        2 * bytes * SECOND * (TOP - 3) <= TOP * rate * (2 * transfer_time(bytes, rate) + 1),
        TOP * rate * (2 * transfer_time(bytes, rate)) <= TOP * rate + 2 * bytes * SECOND * (TOP
            + 4),
{
    let (b, r) = (closest(bytes, 1), closest(rate, 1));
    let q = b.over(r);
    lemma_closest_error(bytes, 1);
    lemma_closest_error(rate, 1);
    lemma_closest_is_normal(rate, 1);
    crate::power::lemma_scale_is_positive(2, b.exponent);
    crate::power::lemma_scale_is_positive(2, r.exponent);
    crate::power::lemma_scale_is_positive(2, q.exponent);
    let (bn, bd) = (b.numerator() as int, b.denominator() as int);
    let (rn, rd) = (r.numerator() as int, r.denominator() as int);
    let (qn, qd) = (q.numerator() as int, q.denominator() as int);
    let (rm, ru) = (r.mantissa, crate::power::up(2, r.exponent));
    assert(rn > 0) by (nonlinear_arith)
        requires
            rn == rm * ru,
            rm > 0,
            ru > 0,
    ;
    assert(bd * rn > 0) by (nonlinear_arith)
        requires
            bd > 0,
            rn > 0,
    ;
    lemma_closest_error(b.numerator() * r.denominator(), b.denominator() * r.numerator());
    let t = transfer_time(bytes, rate) as int;
    lemma_rounded_is_nearest(q.numerator() * SECOND as nat, q.denominator());
    let top = TOP as int;
    let s = SECOND as int;
    let (x, y) = (bytes as int, rate as int);
    lemma_chain_below(x, y, bn, bd, rn, rd, qn, qd, t, top, s);
    lemma_chain_above(x, y, bn, bd, rn, rd, qn, qd, t, top, s);
}

proof fn lemma_chain_below(
    x: int,
    y: int,
    bn: int,
    bd: int,
    rn: int,
    rd: int,
    qn: int,
    qd: int,
    t: int,
    top: int,
    s: int,
)
    requires
        x >= 0,
        y >= 0,
        t >= 0,
        bn >= 0,
        bd > 0,
        rn > 0,
        rd > 0,
        qn >= 0,
        qd > 0,
        s > 0,
        top > 100,
        (top - 1) * (x * bd) <= top * (bn * 1),
        top * (rn * 1) <= (top + 1) * (y * rd),
        (top - 1) * ((bn * rd) * qd) <= top * (qn * (bd * rn)),
        2 * (qn * s) <= qd * (2 * t + 1),
    ensures
        2 * x * s * (top - 3) <= top * y * (2 * t + 1),
{
    let w = 2 * t + 1;
    // The quotient against the rounded time.
    assert(2 * s * ((top - 1) * ((bn * rd) * qd)) <= 2 * s * (top * (qn * (bd * rn))))
        by (nonlinear_arith)
        requires
            (top - 1) * ((bn * rd) * qd) <= top * (qn * (bd * rn)),
            s > 0,
    ;
    assert(2 * s * (top * (qn * (bd * rn))) == (2 * (qn * s)) * (top * (bd * rn)))
        by (nonlinear_arith);
    assert(bd * rn > 0) by (nonlinear_arith)
        requires
            bd > 0,
            rn > 0,
    ;
    assert((2 * (qn * s)) * (top * (bd * rn)) <= (qd * w) * (top * (bd * rn))) by (nonlinear_arith)
        requires
            2 * (qn * s) <= qd * w,
            top > 0,
            bd * rn > 0,
    ;
    let p = 2 * s * (top - 1) * (bn * rd);
    let q = w * top * (bd * rn);
    assert(p * qd == 2 * s * ((top - 1) * ((bn * rd) * qd))) by (nonlinear_arith)
        requires
            p == 2 * s * (top - 1) * (bn * rd),
    ;
    assert(q * qd == (qd * w) * (top * (bd * rn))) by (nonlinear_arith)
        requires
            q == w * top * (bd * rn),
    ;
    assert(p <= q) by (nonlinear_arith)
        requires
            p * qd <= q * qd,
            qd > 0,
    ;
    // The rounded bytes and the rounded rate against the exact ones.
    let k = 2 * s * (top - 1);
    assert(k * rd * ((top - 1) * (x * bd)) <= k * rd * (top * bn)) by (nonlinear_arith)
        requires
            (top - 1) * (x * bd) <= top * (bn * 1),
            k * rd >= 0,
    {
    }
    assert(k * rd * (top * bn) == p * top) by (nonlinear_arith)
        requires
            p == 2 * s * (top - 1) * (bn * rd),
            k == 2 * s * (top - 1),
    ;
    assert(p * top <= q * top) by (nonlinear_arith)
        requires
            p <= q,
            top > 0,
    ;
    assert(q * top == (w * top * bd) * (top * rn)) by (nonlinear_arith)
        requires
            q == w * top * (bd * rn),
    ;
    assert(w * top * bd >= 0) by (nonlinear_arith)
        requires
            w >= 0,
            top > 0,
            bd > 0,
    ;
    assert((w * top * bd) * (top * rn) <= (w * top * bd) * ((top + 1) * (y * rd)))
        by (nonlinear_arith)
        requires
            top * (rn * 1) <= (top + 1) * (y * rd),
            w * top * bd >= 0,
    ;
    let (e, f) = (k * (top - 1) * x, w * top * (top + 1) * y);
    let z = bd * rd;
    assert(e * z == k * rd * ((top - 1) * (x * bd))) by (nonlinear_arith)
        requires
            e == k * (top - 1) * x,
            z == bd * rd,
    ;
    assert(f * z == (w * top * bd) * ((top + 1) * (y * rd))) by (nonlinear_arith)
        requires
            f == w * top * (top + 1) * y,
            z == bd * rd,
    ;
    assert(z > 0) by (nonlinear_arith)
        requires
            z == bd * rd,
            bd > 0,
            rd > 0,
    ;
    assert(e <= f) by (nonlinear_arith)
        requires
            e * z <= f * z,
            z > 0,
    ;
    let (g, h) = (2 * x * s * (top - 3), top * y * w);
    assert(g * (top + 1) <= e) by (nonlinear_arith)
        requires
            g == 2 * x * s * (top - 3),
            e == (2 * s * (top - 1)) * (top - 1) * x,
            x >= 0,
            s > 0,
            top > 100,
    ;
    assert(h * (top + 1) == f) by (nonlinear_arith)
        requires
            h == top * y * w,
            f == w * top * (top + 1) * y,
    ;
    assert(g <= h) by (nonlinear_arith)
        requires
            g * (top + 1) <= h * (top + 1),
            top > 100,
    ;
}

proof fn lemma_chain_above(
    x: int,
    y: int,
    bn: int,
    bd: int,
    rn: int,
    rd: int,
    qn: int,
    qd: int,
    t: int,
    top: int,
    s: int,
)
    requires
        x >= 0,
        y >= 0,
        t >= 0,
        bn >= 0,
        bd > 0,
        rn > 0,
        rd > 0,
        qn >= 0,
        qd > 0,
        s > 0,
        top > 100,
        top * (bn * 1) <= (top + 1) * (x * bd),
        (top - 1) * (y * rd) <= top * (rn * 1),
        top * (qn * (bd * rn)) <= (top + 1) * ((bn * rd) * qd),
        qd * (2 * t) <= 2 * (qn * s) + qd,
    ensures
        top * y * (2 * t) <= top * y + 2 * x * s * (top + 4),
{
    let w = 2 * t - 1;
    assert(qd * (2 * t) - qd == qd * w) by (nonlinear_arith)
        requires
            w == 2 * t - 1,
    ;
    if w > 0 {
        assert(bd * rn > 0) by (nonlinear_arith)
            requires
                bd > 0,
                rn > 0,
        ;
        assert((qd * w) * (top * (bd * rn)) <= (2 * (qn * s)) * (top * (bd * rn)))
            by (nonlinear_arith)
            requires
                qd * w <= 2 * (qn * s),
                top > 0,
                bd * rn > 0,
        ;
        assert((2 * (qn * s)) * (top * (bd * rn)) == 2 * s * (top * (qn * (bd * rn))))
            by (nonlinear_arith);
        assert(2 * s * (top * (qn * (bd * rn))) <= 2 * s * ((top + 1) * ((bn * rd) * qd)))
            by (nonlinear_arith)
            requires
                top * (qn * (bd * rn)) <= (top + 1) * ((bn * rd) * qd),
                s > 0,
        ;
        let p = 2 * s * (top + 1) * (bn * rd);
        let q = w * top * (bd * rn);
        assert(p * qd == 2 * s * ((top + 1) * ((bn * rd) * qd))) by (nonlinear_arith)
            requires
                p == 2 * s * (top + 1) * (bn * rd),
        ;
        assert(q * qd == (qd * w) * (top * (bd * rn))) by (nonlinear_arith)
            requires
                q == w * top * (bd * rn),
        ;
        assert(q <= p) by (nonlinear_arith)
            requires
                q * qd <= p * qd,
                qd > 0,
        ;
        let k = 2 * s * (top + 1);
        assert(k * rd >= 0) by (nonlinear_arith)
            requires
                k == 2 * s * (top + 1),
                s > 0,
                top > 0,
                rd > 0,
        ;
        assert(k * rd * (top * bn) <= k * rd * ((top + 1) * (x * bd))) by (nonlinear_arith)
            requires
                top * (bn * 1) <= (top + 1) * (x * bd),
                k * rd >= 0,
        ;
        assert(k * rd * (top * bn) == p * top) by (nonlinear_arith)
            requires
                p == 2 * s * (top + 1) * (bn * rd),
                k == 2 * s * (top + 1),
        ;
        assert(q * top <= p * top) by (nonlinear_arith)
            requires
                q <= p,
                top > 0,
        ;
        assert(q * top == (w * top * bd) * (top * rn)) by (nonlinear_arith)
            requires
                q == w * top * (bd * rn),
        ;
        assert(w * top * bd >= 0) by (nonlinear_arith)
            requires
                w >= 0,
                top > 0,
                bd > 0,
        ;
        assert((w * top * bd) * ((top - 1) * (y * rd)) <= (w * top * bd) * (top * rn))
            by (nonlinear_arith)
            requires
                (top - 1) * (y * rd) <= top * (rn * 1),
                w * top * bd >= 0,
        ;
        let (e, f) = (k * (top + 1) * x, w * top * (top - 1) * y);
        let z = bd * rd;
        assert(e * z == k * rd * ((top + 1) * (x * bd))) by (nonlinear_arith)
            requires
                e == k * (top + 1) * x,
                z == bd * rd,
        ;
        assert(f * z == (w * top * bd) * ((top - 1) * (y * rd))) by (nonlinear_arith)
            requires
                f == w * top * (top - 1) * y,
                z == bd * rd,
        ;
        assert(z > 0) by (nonlinear_arith)
            requires
                z == bd * rd,
                bd > 0,
                rd > 0,
        ;
        assert(f <= e) by (nonlinear_arith)
            requires
                f * z <= e * z,
                z > 0,
        ;
        let (g, h) = (2 * x * s * (top + 4), top * y * w);
        assert(e <= g * (top - 1)) by (nonlinear_arith)
            requires
                g == 2 * x * s * (top + 4),
                e == (2 * s * (top + 1)) * (top + 1) * x,
                x >= 0,
                s > 0,
                top > 100,
        ;
        assert(h * (top - 1) == f) by (nonlinear_arith)
            requires
                h == top * y * w,
                f == w * top * (top - 1) * y,
        ;
        assert(h <= g) by (nonlinear_arith)
            requires
                h * (top - 1) <= g * (top - 1),
                top > 100,
        ;
        assert(top * y * (2 * t) == top * y + h) by (nonlinear_arith)
            requires
                h == top * y * w,
                w == 2 * t - 1,
        ;
    } else {
        assert(top * y * (2 * t) == 0) by (nonlinear_arith)
            requires
                t == 0,
        ;
        assert(top * y >= 0 && 2 * x * s * (top + 4) >= 0) by (nonlinear_arith)
            requires
                x >= 0,
                y >= 0,
                s > 0,
                top > 100,
        ;
    }
}

/// The bytes that one gate lets through at one rate never exceed that rate times
/// the time from the first start to the last release, but for three parts in `TOP`
/// and half a nanosecond of rounding for each chunk.
pub proof fn lemma_rate_holds(next_free: Option<int>, passages: Seq<Passage>, rate: nat)
    requires
        passages.len() > 0,
        rate > 0,
        forall|i: int| 0 <= i < passages.len() ==> (#[trigger] passages[i]).rate == rate,
    ensures
        2 * total_bytes(passages) * SECOND * (TOP - 3) <= TOP * rate * (2 * (free_after(
            next_free,
            passages,
        )->0 - start_time(next_free, passages[0].now)) + passages.len()),
{
    lemma_passages_do_not_overlap(next_free, passages);
    lemma_total_time_covers_bytes(passages, rate);
    let span = free_after(next_free, passages)->0 - start_time(next_free, passages[0].now);
    let time = total_time(passages);
    let n = passages.len();
    let k = TOP * rate;
    assert(k * (2 * time + n) <= k * (2 * span + n)) by (nonlinear_arith)
        requires
            time <= span,
            k >= 0,
    ;
}

proof fn lemma_total_time_covers_bytes(passages: Seq<Passage>, rate: nat)
    requires
        rate > 0,
        forall|i: int| 0 <= i < passages.len() ==> (#[trigger] passages[i]).rate == rate,
    ensures
        2 * total_bytes(passages) * SECOND * (TOP - 3) <= TOP * rate * (2 * total_time(passages)
            + passages.len()),
    decreases passages.len(),
{
    let k = TOP * rate;
    if passages.len() > 0 {
        let before = passages.drop_last();
        let last = passages.last();
        assert(last == passages[passages.len() - 1]);
        assert forall|i: int| 0 <= i < before.len() implies (#[trigger] before[i]).rate == rate by {
            assert(before[i] == passages[i]);
        }
        lemma_total_time_covers_bytes(before, rate);
        lemma_transfer_time_is_near(last.bytes, rate);
        let t = transfer_time(last.bytes, rate);
        let old_time = total_time(before);
        let m = before.len();
        assert(k * (2 * (old_time + t) + (m + 1)) == k * (2 * old_time + m) + k * (2 * t + 1))
            by (nonlinear_arith);
    } else {
        assert(k * 0 == 0);
    }
}

/// While every turn comes within `CATCH_UP` of the time at which a gate became
/// free, late wake-ups do not accumulate: the last chunk passes exactly when it
/// would have without any of them.
pub proof fn lemma_late_turns_are_paid_back(next_free: Option<int>, passages: Seq<Passage>)
    requires
        passages.len() > 0,
        forall|i: int|
            0 < i < passages.len() ==> earliest_start((#[trigger] passages[i]).now) <= free_after(
                next_free,
                passages.take(i),
            )->0,
    ensures
        free_after(next_free, passages) == Some(
            start_time(next_free, passages[0].now) + total_time(passages),
        ),
    decreases passages.len(),
{
    let before = passages.drop_last();
    if before.len() == 0 {
        assert(total_time(before) == 0);
        assert(free_after(next_free, before) == next_free);
    } else {
        assert forall|i: int| 0 < i < before.len() implies earliest_start(
            (#[trigger] before[i]).now,
        ) <= free_after(next_free, before.take(i))->0 by {
            assert(before[i] == passages[i]);
            assert(before.take(i) =~= passages.take(i));
        }
        lemma_late_turns_are_paid_back(next_free, before);
        assert(before[0] == passages[0]);
        let last = passages.len() - 1;
        assert(passages.take(last) =~= before);
        assert(passages[last] == passages.last());
    }
}

/// A transfer never starts more than `CATCH_UP` before its turn.
pub proof fn lemma_start_is_recent(next_free: Option<int>, now: int)
    ensures
        start_time(next_free, now) >= now - CATCH_UP,
        next_free is Some ==> start_time(next_free, now) >= next_free->0,
{
}

/// Raising the rate never delays a transfer.
pub proof fn lemma_faster_is_not_later(bytes: nat, slow: nat, fast: nat)
    requires
        0 < slow <= fast,
    ensures
        transfer_time(bytes, fast) <= transfer_time(bytes, slow),
{
    let b = closest(bytes, 1);
    let (r, f) = (closest(slow, 1), closest(fast, 1));
    let (p, q) = (b.over(r), b.over(f));
    lemma_closest_is_monotone(slow, 1, fast, 1);
    lemma_closest_is_normal(slow, 1);
    lemma_closest_is_normal(fast, 1);
    lemma_order_is_by_value(r, f);
    crate::power::lemma_scale_is_positive(2, b.exponent);
    crate::power::lemma_scale_is_positive(2, r.exponent);
    crate::power::lemma_scale_is_positive(2, f.exponent);
    crate::power::lemma_scale_is_positive(2, p.exponent);
    crate::power::lemma_scale_is_positive(2, q.exponent);
    let (bn, bd) = (b.numerator(), b.denominator());
    let (rn, rd) = (r.numerator(), r.denominator());
    let (quick, fd) = (f.numerator(), f.denominator());
    assert(rn > 0 && quick > 0) by (nonlinear_arith)
        requires
            rn == r.mantissa * crate::power::up(2, r.exponent),
            quick == f.mantissa * crate::power::up(2, f.exponent),
            r.mantissa > 0,
            f.mantissa > 0,
            crate::power::up(2, r.exponent) > 0,
            crate::power::up(2, f.exponent) > 0,
    ;
    assert((bn * fd) * (bd * rn) <= (bn * rd) * (bd * quick)) by (nonlinear_arith)
        requires
            rn * fd <= quick * rd,
    ;
    assert(bd * rn > 0 && bd * quick > 0) by (nonlinear_arith)
        requires
            bd > 0,
            rn > 0,
            quick > 0,
    ;
    lemma_closest_is_monotone(bn * fd, bd * quick, bn * rd, bd * rn);
    lemma_closest_is_normal(bn * fd, bd * quick);
    lemma_closest_is_normal(bn * rd, bd * rn);
    lemma_order_is_by_value(q, p);
    let s = SECOND as nat;
    let (qn, qd) = (q.numerator(), q.denominator());
    let (pn, pd) = (p.numerator(), p.denominator());
    assert((qn * s) * pd <= (pn * s) * qd) by (nonlinear_arith)
        requires
            qn * pd <= pn * qd,
    ;
    lemma_rounded_is_monotone(qn * s, qd, pn * s, pd);
}

/// When a transfer starts. An idle gate lets it start with its turn. Otherwise it starts
/// when its gate is free, but not more than a twentieth of a second before its turn: it
/// never waits for a gate that is free, and never makes up for more than that.
pub proof fn lemma_start_follows_gate_and_turn(next_free: Option<int>, now: int)
    requires
        now >= 0,
    ensures
        ({
            let start = start_time(next_free, now);
            &&& next_free is None ==> start == now
            &&& next_free matches Some(free) ==> {
                &&& start >= free
                &&& free >= now ==> start == free
                &&& free <= now ==> start <= now
                &&& 20 * (now - start) <= SECOND
                &&& start > free && 20 * now >= SECOND ==> 20 * (now - start) == SECOND
                &&& free < now && 20 * now < SECOND ==> start == now
            }
        }),
{
}

/// A gate that becomes free later, or a turn that comes later, never makes a transfer
/// start earlier.
pub proof fn lemma_start_is_monotone(free: int, later_free: int, now: int, later: int)
    requires
        free <= later_free,
        SECOND <= now <= later,
    ensures
        start_time(Some(free), now) <= start_time(Some(later_free), now),
        start_time(Some(free), now) <= start_time(Some(free), later),
        start_time(Some(free), later) - start_time(Some(free), now) <= later - now,
{
}

/// A chunk that holds its gate sleeps until its start plus its transfer time at the rate of
/// its own direction, and keeps that gate to itself until then. Without limits it passes
/// and leaves its gate idle.
pub proof fn lemma_holding_takes_the_transfer_time(
    wait: Wait,
    next_free: Option<int>,
    start: int,
    limits: Limits,
)
    requires
        0 <= start,
        wait.fits(start, limits),
    ensures
        ({
            let (phase, free, action) = wait.scheduled(next_free, start, limits);
            let rate = limits.bytes_per_second.at(wait.direction);
            &&& limits.enabled ==> {
                &&& phase is Holding
                &&& phase->start == start
                &&& phase->deadline == start + transfer_time(
                    wait.bytes as nat,
                    if rate == 0 {
                        1
                    } else {
                        rate as nat
                    },
                )
                &&& action == WaitAction::SleepUntil(phase->deadline)
                &&& free == next_free
            }
            &&& !limits.enabled ==> phase is Passed && free is None && action
                == WaitAction::Proceed
        }),
{
}

/// A change of the rate while a chunk holds its gate counts from the same start: the new
/// deadline is the one that the chunk would have had at the new rate all along, and a
/// higher rate never moves it back.
pub proof fn lemma_rate_change_keeps_the_start(
    wait: Wait,
    next_free: Option<int>,
    start: int,
    before: Limits,
    after: Limits,
)
    requires
        0 <= start,
        wait.fits(start, before),
        wait.fits(start, after),
        before.enabled,
        after.enabled,
    ensures
        ({
            let old_phase = wait.scheduled(next_free, start, before).0;
            let new_phase = wait.scheduled(next_free, start, after).0;
            &&& old_phase->start == new_phase->start == start
            &&& before.bytes_per_second.at(wait.direction) <= after.bytes_per_second.at(
                wait.direction,
            ) ==> new_phase->deadline <= old_phase->deadline
            &&& before.bytes_per_second.at(wait.direction) == after.bytes_per_second.at(
                wait.direction,
            ) ==> new_phase == old_phase
        }),
{
    let (slow, fast) = (
        before.rate_of(wait.direction)->0 as nat,
        after.rate_of(wait.direction)->0 as nat,
    );
    if before.bytes_per_second.at(wait.direction) <= after.bytes_per_second.at(wait.direction) {
        lemma_faster_is_not_later(wait.bytes as nat, slow, fast);
    }
}

/// After any chunks, a gate is free exactly at the end of the last one, counted from when
/// that one started.
pub proof fn lemma_gate_is_free_after_the_last(next_free: Option<int>, passages: Seq<Passage>)
    requires
        passages.len() > 0,
    ensures
        free_after(next_free, passages) == Some(
            start_time(free_after(next_free, passages.drop_last()), passages.last().now)
                + transfer_time(passages.last().bytes, passages.last().rate),
        ),
        free_after(next_free, Seq::empty()) == next_free,
{
}

/// A transfer takes the seconds that its bytes need at the rate, rounded once, and counted in
/// whole nanoseconds.
pub proof fn lemma_transfer_time_is_the_quotient(bytes: nat, rate: nat)
    requires
        bytes < TOP,
        0 < rate < TOP,
    ensures
        ({
            let seconds = closest(bytes, rate);
            transfer_time(bytes, rate) == rounded(
                seconds.numerator() * 1_000_000_000,
                seconds.denominator(),
            )
        }),
{
    lemma_quotients_are_rounded_once(bytes, rate);
}

} // verus!
