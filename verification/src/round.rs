//! Round numbers: 1, 2 or 5 times a power of ten.

use crate::double::{Double, TOP};
use crate::natural::{shifted_number, Natural};
use crate::power::{down, lemma_power_adds, lemma_power_grows, lemma_power_is_positive, lemma_powers_of_two, lemma_scale_adds, lemma_scale_is_positive, power, up};
use vstd::prelude::*;

verus! {

/// The number `digit` times ten to the power of `power`.
pub struct Round {
    pub digit: nat,
    pub power: int,
}

impl Round {
    /// Whether the digit is one that round numbers have.
    pub open spec fn is_round(self) -> bool {
        self.digit == 1 || self.digit == 2 || self.digit == 5
    }

    /// The number as a fraction: its numerator.
    pub open spec fn numerator(self) -> nat {
        self.digit * up(10, self.power)
    }

    /// The number as a fraction: its denominator.
    pub open spec fn denominator(self) -> nat {
        down(10, self.power)
    }

    /// Whether this number is at least `n / d`.
    pub open spec fn covers(self, n: nat, d: nat) -> bool {
        n * self.denominator() <= self.numerator() * d
    }

    /// Whether this number is at most `other`.
    pub open spec fn at_most(self, other: Round) -> bool {
        self.numerator() * other.denominator() <= other.numerator() * self.denominator()
    }

    /// Whether this is the least round number that is at least `n / d`.
    pub open spec fn is_ceiling_of(self, n: nat, d: nat) -> bool {
        &&& self.is_round()
        &&& self.covers(n, d)
        &&& forall|other: Round| other.is_round() && #[trigger] other.covers(n, d) ==> self.at_most(
            other,
        )
    }
}

/// Whether `n / d` is above ten to the power of `p`, and at most ten times that.
pub open spec fn in_decade(n: nat, d: nat, p: int) -> bool {
    d * up(10, p) < n * down(10, p) <= 10 * (d * up(10, p))
}

/// The least round number that is at least `n / d`, which lies in decade `p`.
pub open spec fn ceiling_in(n: nat, d: nat, p: int) -> Round {
    let (x, y) = (n * down(10, p), d * up(10, p));
    if x <= 2 * y {
        Round { digit: 2, power: p }
    } else if x <= 5 * y {
        Round { digit: 5, power: p }
    } else {
        Round { digit: 1, power: p + 1 }
    }
}

proof fn lemma_decade_above(n: nat, d: nat, e: nat)
    requires
        d > 0,
        d * power(10, e) < n,
    ensures
        exists|p: int| in_decade(n, d, p),
    decreases n - d * power(10, e),
{
    let k = power(10, e);
    assert(n * 1 == n);
    if n <= 10 * (d * k) {
        assert(in_decade(n, d, e as int));
    } else {
        assert(power(10, e + 1) == 10 * k);
        assert(d * (10 * k) == 10 * (d * k)) by (nonlinear_arith);
        lemma_power_is_positive(10, e);
        assert(d * k > 0) by (nonlinear_arith)
            requires
                d > 0,
                k > 0,
        ;
        lemma_decade_above(n, d, e + 1);
    }
}

proof fn lemma_decade_below(n: nat, d: nat, e: nat)
    requires
        n > 0,
        d > 0,
        n * power(10, e) <= 10 * d,
    ensures
        exists|p: int| in_decade(n, d, p),
    decreases 10 * d - n * power(10, e),
{
    let k = power(10, e);
    assert(power(10, 0) == 1);
    assert(d * 1 == d);
    if d < n * k {
        assert(in_decade(n, d, -(e as int)));
    } else {
        assert(power(10, e + 1) == 10 * k);
        assert(n * (10 * k) == 10 * (n * k)) by (nonlinear_arith);
        lemma_power_is_positive(10, e);
        assert(n * k > 0) by (nonlinear_arith)
            requires
                n > 0,
                k > 0,
        ;
        lemma_decade_below(n, d, e + 1);
    }
}

proof fn lemma_ceiling_covers(n: nat, d: nat, p: int)
    requires
        d > 0,
        in_decade(n, d, p),
    ensures
        ceiling_in(n, d, p).covers(n, d),
        ceiling_in(n, d, p).numerator() * d <= 10 * (n * ceiling_in(n, d, p).denominator()),
{
    let r = ceiling_in(n, d, p);
    let (u, v) = (up(10, p), down(10, p));
    let (x, y) = (n * v, d * u);
    lemma_scale_is_positive(10, p);
    if r.power == p {
        let g = r.digit;
        assert((g * u) * d == g * y) by (nonlinear_arith)
            requires
                y == d * u,
        ;
    } else {
        lemma_scale_adds(10, p, 1);
        lemma_scale_is_positive(10, p + 1);
        assert(power(10, 1) == 10) by {
            reveal_with_fuel(power, 2);
        }
        let (w, z) = (up(10, p + 1), down(10, p + 1));
        assert(w * (v * 1) == z * (u * 10));
        assert(1 * w == w);
        let (a, b) = (n * z, w * d);
        assert(a * v == x * z) by (nonlinear_arith)
            requires
                a == n * z,
                x == n * v,
        ;
        assert(b * v == (10 * y) * z) by (nonlinear_arith)
            requires
                b == w * d,
                y == d * u,
                w * v == z * (u * 10),
        ;
        assert(x * z <= (10 * y) * z) by (nonlinear_arith)
            requires
                x <= 10 * y,
        ;
        assert(a <= b) by (nonlinear_arith)
            requires
                a * v <= b * v,
                v > 0,
        ;
        assert((10 * y) * z <= (10 * x) * z) by (nonlinear_arith)
            requires
                y <= x,
        ;
        assert((10 * a) * v == (10 * x) * z) by (nonlinear_arith)
            requires
                a * v == x * z,
        ;
        assert(b <= 10 * a) by (nonlinear_arith)
            requires
                b * v <= (10 * a) * v,
                v > 0,
        ;
    }
}

proof fn lemma_ceiling_is_least(n: nat, d: nat, p: int, other: Round)
    requires
        d > 0,
        in_decade(n, d, p),
        other.is_round(),
        other.covers(n, d),
    ensures
        ceiling_in(n, d, p).at_most(other),
{
    let r = ceiling_in(n, d, p);
    let (g, q) = (other.digit, other.power);
    let (u, v) = (up(10, p), down(10, p));
    let (s, t) = (up(10, q), down(10, q));
    let (x, y) = (n * v, d * u);
    lemma_scale_is_positive(10, p);
    lemma_scale_is_positive(10, q);
    assert(power(10, 0) == 1);
    if q < p {
        // It would be at most half of the lower end of the decade.
        lemma_scale_adds(10, q, p - q);
        lemma_power_grows(10, 0, (p - q) as nat);
        let k = up(10, p - q);
        assert(u * (t * 1) == v * (s * k));
        let z = d * (v * s);
        assert(z > 0) by (nonlinear_arith)
            requires
                z == d * (v * s),
                d > 0,
                v > 0,
                s > 0,
        ;
        assert(y * t == z * k) by (nonlinear_arith)
            requires
                y == d * u,
                u * t == v * (s * k),
                z == d * (v * s),
        ;
        assert(y * t < x * t) by (nonlinear_arith)
            requires
                y < x,
                t > 0,
        ;
        assert(x * t == (n * t) * v) by (nonlinear_arith)
            requires
                x == n * v,
        ;
        assert((n * t) * v <= ((g * s) * d) * v) by (nonlinear_arith)
            requires
                n * t <= (g * s) * d,
        ;
        assert(((g * s) * d) * v == z * g) by (nonlinear_arith)
            requires
                z == d * (v * s),
        ;
        assert(false) by (nonlinear_arith)
            requires
                z * k < z * g,
                k >= 10,
                g <= 5,
                z > 0,
        ;
    } else if q == p {
        assert((g * s) * d == g * y) by (nonlinear_arith)
            requires
                y == d * u,
                s == u,
        ;
        assert(g * y >= x);
        assert(g == 1 ==> g * y == y) by (nonlinear_arith);
        assert(g == 2 ==> g * y == 2 * y) by (nonlinear_arith);
        assert(g == 5 ==> g * y == 5 * y) by (nonlinear_arith);
        let h = r.digit;
        assert(r.power == p && h <= g);
        assert((h * u) * v <= (g * u) * v) by (nonlinear_arith)
            requires
                h <= g,
        ;
    } else if r.power == p {
        lemma_scale_adds(10, p, q - p);
        lemma_power_grows(10, 0, (q - p) as nat);
        let k = up(10, q - p);
        assert(s * (v * 1) == t * (u * k));
        let h = r.digit;
        let z = u * t;
        assert((g * s) * v == g * (k * z)) by (nonlinear_arith)
            requires
                s * v == t * (u * k),
                z == u * t,
        ;
        assert((h * u) * t == h * z) by (nonlinear_arith)
            requires
                z == u * t,
        ;
        assert(h * z <= g * (k * z)) by (nonlinear_arith)
            requires
                h <= 5,
                g >= 1,
                k >= 10,
        ;
    } else {
        lemma_scale_adds(10, p + 1, q - p - 1);
        lemma_scale_is_positive(10, q - p - 1);
        let (a, b) = (up(10, p + 1), down(10, p + 1));
        let k = up(10, q - p - 1);
        assert(s * (b * 1) == t * (a * k));
        let z = a * t;
        assert((g * s) * b == g * (k * z)) by (nonlinear_arith)
            requires
                s * b == t * (a * k),
                z == a * t,
        ;
        assert((1 * a) * t == z);
        assert(z <= g * (k * z)) by (nonlinear_arith)
            requires
                g >= 1,
                k >= 1,
        ;
    }
}

proof fn lemma_ceiling_in_decade(n: nat, d: nat, p: int)
    requires
        d > 0,
        in_decade(n, d, p),
    ensures
        ceiling_in(n, d, p).is_ceiling_of(n, d),
{
    lemma_ceiling_covers(n, d, p);
    assert forall|other: Round| other.is_round() && #[trigger] other.covers(n, d) implies ceiling_in(
        n,
        d,
        p,
    ).at_most(other) by {
        lemma_ceiling_is_least(n, d, p, other);
    }
}

/// Every positive number, however small or great, has a least round number at or above
/// it. That number is less than ten times as great.
pub proof fn lemma_ceiling_exists(n: nat, d: nat)
    requires
        n > 0,
        d > 0,
    ensures
        exists|r: Round| #[trigger]
            r.is_ceiling_of(n, d) && r.numerator() * d <= 10 * (n * r.denominator()),
{
    assert(power(10, 0) == 1);
    assert(d * 1 == d);
    assert(n * 1 == n);
    if d < n {
        lemma_decade_above(n, d, 0);
    } else {
        lemma_decade_below(n, d, 0);
    }
    let p = choose|p: int| in_decade(n, d, p);
    lemma_ceiling_in_decade(n, d, p);
    lemma_ceiling_covers(n, d, p);
}

/// A round number.
#[derive(Clone, Copy, Debug, PartialEq, Eq, Structural)]
pub struct Nice {
    pub digit: u64,
    pub power: i64,
}

impl View for Nice {
    type V = Round;

    open spec fn view(&self) -> Round {
        Round { digit: self.digit as nat, power: self.power as int }
    }
}

/// Powers of ten are not below those of two, so that they have no more digits.
proof fn lemma_tens_are_more(e: nat)
    ensures
        power(2, e) <= power(10, e),
    decreases e,
{
    if e > 0 {
        lemma_tens_are_more((e - 1) as nat);
    }
}

/// A power of ten below a power of two has the smaller exponent.
proof fn lemma_tens_are_few(e: nat, most: nat)
    requires
        power(10, e) <= power(2, most),
    ensures
        e <= most,
{
    if e > most {
        lemma_tens_are_more(e);
        lemma_power_grows(2, most, e);
        lemma_power_is_positive(2, most);
    }
}

/// Rounds a positive number up to 1, 2, or 5 times a power of ten, so that gridlines
/// land on round values. The exponents of double precision lie well within the range.
pub fn nice_ceiling(value: Double) -> (ceiling: Nice)
    requires
        0 < value.mantissa < TOP,
        -10_000 <= value.exponent <= 10_000,
    ensures
        ceiling@.is_ceiling_of(value@.numerator(), value@.denominator()),
        ceiling@.numerator() * value@.denominator() <= 10 * (value@.numerator()
            * ceiling@.denominator()),
        -20_000 <= ceiling.power <= 20_000,
{
    let ghost (n, d) = (value@.numerator(), value@.denominator());
    let mut p = Natural::from_number(value.mantissa);
    let mut q = Natural::from_number(1);
    assert(value.mantissa * 1 == value.mantissa);
    assert(power(2, 0) == 1 && power(10, 0) == 1);
    if value.exponent >= 0 {
        p = shifted_number(value.mantissa, value.exponent as u64);
    } else {
        q = shifted_number(1, (-value.exponent) as u64);
    }
    proof {
        lemma_parts_are_small(value);
    }
    let mut e: i64 = 0;
    assert(p@ == n && q@ == d);
    assert(d * 1 == d);
    assert(n * 1 == n);
    if p.is_at_most(&q) {
        while p.is_at_most(&q)
            invariant
                -10_100 <= e <= 0,
                q@ == d <= power(2, 10_053),
                0 < n,
                p@ == n * power(10, (-e) as nat),
                0 < p@ <= 10 * q@,
            decreases 10 * q@ - p@,
        {
            proof {
                let k = power(10, (-e) as nat);
                assert(p@ >= k) by (nonlinear_arith)
                    requires
                        p@ == n * k,
                        n > 0,
                ;
                lemma_tens_are_few((-e) as nat, 10_053);
                assert(power(10, (-e + 1) as nat) == 10 * k);
                assert(n * k * 10 == n * (10 * k)) by (nonlinear_arith);
            }
            p = p.scaled(10);
            e -= 1;
        }
    } else {
        let mut tens = q.scaled(10);
        while !p.is_at_most(&tens)
            invariant
                0 <= e <= 10_100,
                p@ == n <= power(2, 10_053),
                0 < d,
                q@ == d * power(10, e as nat),
                tens@ == 10 * q@,
                0 < q@ < p@,
            decreases p@ - q@,
        {
            proof {
                let k = power(10, e as nat);
                assert(q@ >= k) by (nonlinear_arith)
                    requires
                        q@ == d * k,
                        d > 0,
                ;
                lemma_tens_are_few(e as nat, 10_053);
                assert(power(10, (e + 1) as nat) == 10 * k);
                assert(d * (10 * k) == 10 * (d * k)) by (nonlinear_arith);
            }
            q = tens;
            tens = q.scaled(10);
            e += 1;
        }
    }
    proof {
        assert(p@ == n * down(10, e as int));
        assert(q@ == d * up(10, e as int));
        lemma_ceiling_in_decade(n, d, e as int);
        lemma_ceiling_covers(n, d, e as int);
    }
    if p.is_at_most(&q.scaled(2)) {
        Nice { digit: 2, power: e }
    } else if p.is_at_most(&q.scaled(5)) {
        Nice { digit: 5, power: e }
    } else {
        Nice { digit: 1, power: e + 1 }
    }
}

proof fn lemma_parts_are_small(value: Double)
    requires
        0 < value.mantissa < TOP,
        -10_000 <= value.exponent <= 10_000,
    ensures
        0 < value@.numerator() <= power(2, 10_053),
        0 < value@.denominator() <= power(2, 10_053),
{
    let e = value.exponent as int;
    let (u, v) = (up(2, e), down(2, e));
    let m = value.mantissa as nat;
    lemma_scale_is_positive(2, e);
    lemma_powers_of_two();
    lemma_power_adds(2, 53, 10_000);
    lemma_power_is_positive(2, 10_000);
    let k = power(2, 10_000);
    if 0 <= e < 10_000 {
        lemma_power_grows(2, e as nat, 10_000);
    }
    if -10_000 < e < 0 {
        lemma_power_grows(2, (-e) as nat, 10_000);
    }
    assert(0 < m * u <= TOP * k) by (nonlinear_arith)
        requires
            0 < m < TOP,
            0 < u <= k,
    ;
    assert(k <= TOP * k) by (nonlinear_arith)
        requires
            TOP >= 1,
            k > 0,
    ;
}

proof fn lemma_ceiling_in_decade_is_close(n: nat, d: nat, p: int)
    requires
        d > 0,
        in_decade(n, d, p),
    ensures
        2 * (ceiling_in(n, d, p).numerator() * d) <= 5 * (n * ceiling_in(n, d, p).denominator()),
{
    let r = ceiling_in(n, d, p);
    let (u, v) = (up(10, p), down(10, p));
    let (x, y) = (n * v, d * u);
    lemma_scale_is_positive(10, p);
    if r.power == p {
        let g = r.digit;
        assert((g * u) * d == g * y) by (nonlinear_arith)
            requires
                y == d * u,
        ;
    } else {
        let (s, t) = (up(10, p + 1), down(10, p + 1));
        lemma_scale_adds(10, p, 1);
        lemma_scale_is_positive(10, p + 1);
        assert(power(10, 1) == 10) by {
            reveal_with_fuel(power, 2);
        }
        assert(up(10, 1) == 10 && down(10, 1) == 1);
        assert(s * (v * 1) == t * (u * 10));
        assert(2 * (s * d) * v <= 5 * (n * t) * v) by (nonlinear_arith)
            requires
                s * v == t * (u * 10),
                x == n * v,
                y == d * u,
                5 * y < x,
                t > 0,
        ;
        crate::double::lemma_cancel((2 * (s * d)) as int, (5 * (n * t)) as int, v as int);
        assert(1 * s == s);
    }
}

/// The least round number above a positive one is one, two or five times a power of ten, is
/// not below it, and is at most two and a half times as much.
pub proof fn lemma_ceiling_is_close(round: Round, n: nat, d: nat)
    requires
        n > 0,
        d > 0,
        round.is_ceiling_of(n, d),
    ensures
        round.digit == 1 || round.digit == 2 || round.digit == 5,
        n * round.denominator() <= round.numerator() * d,
        2 * (round.numerator() * d) <= 5 * (n * round.denominator()),
{
    assert(power(10, 0) == 1);
    assert(d * 1 == d);
    assert(n * 1 == n);
    if d < n {
        lemma_decade_above(n, d, 0);
    } else {
        lemma_decade_below(n, d, 0);
    }
    let p = choose|p: int| in_decade(n, d, p);
    let c = ceiling_in(n, d, p);
    lemma_ceiling_covers(n, d, p);
    lemma_ceiling_in_decade_is_close(n, d, p);
    assert(c.is_round());
    assert(c.covers(n, d));
    assert(round.at_most(c));
    lemma_scale_is_positive(10, round.power);
    lemma_scale_is_positive(10, c.power);
    let (rn, rd, cn, cd) = (
        round.numerator() as int,
        round.denominator() as int,
        c.numerator() as int,
        c.denominator() as int,
    );
    assert((2 * (rn * d)) * cd <= (5 * (n * rd)) * cd) by (nonlinear_arith)
        requires
            rn * cd <= cn * rd,
            2 * (cn * d) <= 5 * (n * cd),
            d > 0,
            rd > 0,
    ;
    crate::double::lemma_cancel(2 * (rn * d), 5 * (n * rd), cd);
}

} // verus!
