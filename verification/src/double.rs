//! Numbers of double precision that are not negative: whole numbers of 53 bits times
//! a power of two. Measured rates and transfer times are counted in them.
//!
//! Each operation gives the number nearest to its exact result, and of two that are
//! equally near the one with an even mantissa. The exponents that occur here are far
//! from the ends of the range that double precision has.

use crate::gate::SECOND;
use crate::power::{down, lemma_power_adds, lemma_power_grows, lemma_powers_of_two, lemma_same_fraction, lemma_scale_adds, lemma_scale_is_positive, lemma_shifted_fraction, power, power_of_two, up};
use crate::text::{divide_rounded, lemma_rounded_between, lemma_rounded_is_monotone, lemma_rounded_is_nearest, rounded};
use vstd::prelude::*;

verus! {

/// Two to the power of 53: mantissas are below it.
pub const TOP: u64 = 0x20_0000_0000_0000;

/// Two to the power of 52: mantissas are not below it, unless they are zero.
pub const HALF: u64 = 0x10_0000_0000_0000;

/// The number `mantissa` times two to the power of `exponent`.
pub struct Number {
    pub mantissa: nat,
    pub exponent: int,
}

/// Whether `n / d`, divided by two to the power of `e`, has 53 bits before the point.
pub open spec fn fits_at(n: nat, d: nat, e: int) -> bool {
    HALF * (d * up(2, e)) <= n * down(2, e) < TOP * (d * up(2, e))
}

/// The exponent of the number nearest to `n / d`, before rounding.
pub open spec fn exponent_of(n: nat, d: nat) -> int {
    choose|e: int| fits_at(n, d, e)
}

/// The number nearest to `n / d`.
pub open spec fn closest(n: nat, d: nat) -> Number {
    if n == 0 || d == 0 {
        Number { mantissa: 0, exponent: 0 }
    } else {
        let e = exponent_of(n, d);
        let mantissa = rounded(n * down(2, e), d * up(2, e));
        if mantissa == TOP {
            Number { mantissa: HALF as nat, exponent: e + 1 }
        } else {
            Number { mantissa, exponent: e }
        }
    }
}

impl Number {
    /// The number as a fraction: its numerator.
    pub open spec fn numerator(self) -> nat {
        self.mantissa * up(2, self.exponent)
    }

    /// The number as a fraction: its denominator.
    pub open spec fn denominator(self) -> nat {
        down(2, self.exponent)
    }

    /// Each number has one form: 53 bits, or zero with the exponent zero.
    pub open spec fn is_normal(self) -> bool {
        HALF <= self.mantissa < TOP || (self.mantissa == 0 && self.exponent == 0)
    }

    /// Whether this number is at most `other`. As mantissas have 53 bits, exponents
    /// decide, and mantissas where those are equal.
    pub open spec fn at_most(self, other: Number) -> bool {
        self.mantissa == 0 || (other.mantissa > 0 && (self.exponent < other.exponent || (
        self.exponent == other.exponent && self.mantissa <= other.mantissa)))
    }

    /// This number times two to the power of `by`, which needs no rounding.
    pub open spec fn shifted(self, by: int) -> Number {
        if self.mantissa == 0 {
            self
        } else {
            Number { mantissa: self.mantissa, exponent: self.exponent + by }
        }
    }

    /// The sum.
    pub open spec fn plus(self, other: Number) -> Number {
        closest(
            self.numerator() * other.denominator() + other.numerator() * self.denominator(),
            self.denominator() * other.denominator(),
        )
    }

    /// The product.
    pub open spec fn times(self, other: Number) -> Number {
        closest(
            self.numerator() * other.numerator(),
            self.denominator() * other.denominator(),
        )
    }

    /// The quotient.
    pub open spec fn over(self, other: Number) -> Number {
        closest(
            self.numerator() * other.denominator(),
            self.denominator() * other.numerator(),
        )
    }
}

proof fn lemma_exponents_in_order(n: nat, d: nat, a: int, m: nat, c: nat, b: int)
    requires
        d > 0,
        c > 0,
        n * c <= m * d,
        HALF * (d * up(2, a)) <= n * down(2, a),
        m * down(2, b) < TOP * (c * up(2, b)),
    ensures
        a <= b,
{
    if a > b {
        lemma_scale_adds(2, b, a - b);
        lemma_scale_is_positive(2, a);
        lemma_scale_is_positive(2, b);
        lemma_power_grows(2, 0, (a - b) as nat);
        let (ua, da, ub, db) = (up(2, a), down(2, a), up(2, b), down(2, b));
        let k = up(2, a - b);
        assert(power(2, 0) == 1);
        assert(k >= 2);
        assert(ua * (db * 1) == da * (ub * k));
        let x = (d * c) * (ub * da);
        assert(x > 0) by (nonlinear_arith)
            requires
                x == (d * c) * (ub * da),
                d > 0,
                c > 0,
                ub > 0,
                da > 0,
        ;
        let h = HALF as int;
        let t = TOP as int;
        assert((h * (d * ua)) * (c * db) <= (n * da) * (c * db)) by (nonlinear_arith)
            requires
                h * (d * ua) <= n * da,
                c > 0,
                db > 0,
        ;
        assert((h * (d * ua)) * (c * db) == h * ((d * c) * (ua * db))) by (nonlinear_arith);
        assert((d * c) * (da * (ub * k)) == x * k) by (nonlinear_arith)
            requires
                x == (d * c) * (ub * da),
        ;
        assert(ua * (db * 1) == ua * db);
        assert((n * da) * (c * db) == (n * c) * (da * db)) by (nonlinear_arith);
        assert((n * c) * (da * db) <= (m * d) * (da * db)) by (nonlinear_arith)
            requires
                n * c <= m * d,
        ;
        assert((m * d) * (da * db) == (m * db) * (d * da)) by (nonlinear_arith);
        assert((m * db) * (d * da) < (t * (c * ub)) * (d * da)) by (nonlinear_arith)
            requires
                m * db < t * (c * ub),
                d > 0,
                da > 0,
        ;
        assert((t * (c * ub)) * (d * da) == t * x) by (nonlinear_arith)
            requires
                x == (d * c) * (ub * da),
        ;
        assert(h * (x * k) >= t * x) by (nonlinear_arith)
            requires
                k >= 2,
                x > 0,
                t == 2 * h,
                h > 0,
        ;
    }
}

proof fn lemma_fit_above(n: nat, d: nat, e: nat)
    requires
        d > 0,
        HALF * (d * power(2, e)) <= n,
    ensures
        exists|f: int| fits_at(n, d, f),
    decreases n - d * power(2, e),
{
    let p = power(2, e);
    if n < TOP * (d * p) {
        assert(n * 1 == n);
        assert(fits_at(n, d, e as int));
    } else {
        assert(power(2, e + 1) == 2 * p);
        assert(d * (2 * p) == 2 * (d * p)) by (nonlinear_arith);
        crate::power::lemma_power_is_positive(2, e);
        assert(d * p > 0) by (nonlinear_arith)
            requires
                d > 0,
                p > 0,
        ;
        lemma_fit_above(n, d, e + 1);
    }
}

proof fn lemma_fit_below(n: nat, d: nat, k: nat)
    requires
        n > 0,
        d > 0,
        n * power(2, k) < TOP * d,
    ensures
        exists|f: int| fits_at(n, d, f),
    decreases TOP * d - n * power(2, k),
{
    let p = power(2, k);
    assert(power(2, 0) == 1);
    if HALF * d <= n * p {
        assert(d * 1 == d);
        assert(fits_at(n, d, -(k as int)));
    } else {
        assert(power(2, k + 1) == 2 * p);
        assert(n * (2 * p) == 2 * (n * p)) by (nonlinear_arith);
        crate::power::lemma_power_is_positive(2, k);
        assert(n * p > 0) by (nonlinear_arith)
            requires
                n > 0,
                p > 0,
        ;
        lemma_fit_below(n, d, k + 1);
    }
}

proof fn lemma_fit(n: nat, d: nat)
    requires
        n > 0,
        d > 0,
    ensures
        fits_at(n, d, exponent_of(n, d)),
{
    assert(power(2, 0) == 1);
    assert(d * 1 == d);
    assert(n * 1 == n);
    if n >= TOP * d {
        lemma_fit_above(n, d, 0);
    } else {
        lemma_fit_below(n, d, 0);
    }
}

proof fn lemma_exponent_is(n: nat, d: nat, e: int)
    requires
        n > 0,
        d > 0,
        fits_at(n, d, e),
    ensures
        exponent_of(n, d) == e,
{
    lemma_fit(n, d);
    lemma_exponents_in_order(n, d, e, n, d, exponent_of(n, d));
    lemma_exponents_in_order(n, d, exponent_of(n, d), n, d, e);
}

proof fn lemma_mantissa(n: nat, d: nat)
    requires
        n > 0,
        d > 0,
    ensures
        ({
            let e = exponent_of(n, d);
            &&& d * up(2, e) > 0
            &&& HALF <= rounded(n * down(2, e), d * up(2, e)) <= TOP
        }),
{
    let e = exponent_of(n, d);
    lemma_fit(n, d);
    lemma_scale_is_positive(2, e);
    let u = up(2, e);
    assert(d * u > 0) by (nonlinear_arith)
        requires
            d > 0,
            u > 0,
    ;
    lemma_rounded_between(n * down(2, e), d * u, HALF as nat, TOP as nat);
}

/// The nearest number is in the one form that numbers have, and it is zero only for
/// zero.
pub proof fn lemma_closest_is_normal(n: nat, d: nat)
    requires
        d > 0,
    ensures
        closest(n, d).is_normal(),
        closest(n, d).mantissa == 0 <==> n == 0,
{
    if n > 0 {
        lemma_mantissa(n, d);
    }
}

/// A greater fraction does not have a smaller number nearest to it.
pub proof fn lemma_closest_is_monotone(n: nat, d: nat, m: nat, c: nat)
    requires
        d > 0,
        c > 0,
        n * c <= m * d,
    ensures
        closest(n, d).at_most(closest(m, c)),
{
    if n > 0 {
        assert(m > 0) by (nonlinear_arith)
            requires
                n > 0,
                c > 0,
                n * c <= m * d,
        ;
        lemma_fit(n, d);
        lemma_fit(m, c);
        lemma_mantissa(n, d);
        lemma_mantissa(m, c);
        let (a, b) = (exponent_of(n, d), exponent_of(m, c));
        lemma_exponents_in_order(n, d, a, m, c, b);
        if a == b {
            let (u, v) = (up(2, a), down(2, a));
            assert((n * v) * (c * u) == (n * c) * (u * v)) by (nonlinear_arith);
            assert((m * v) * (d * u) == (m * d) * (u * v)) by (nonlinear_arith);
            assert((n * c) * (u * v) <= (m * d) * (u * v)) by (nonlinear_arith)
                requires
                    n * c <= m * d,
            ;
            lemma_rounded_is_monotone(n * v, d * u, m * v, c * u);
        }
    }
}

/// Scaling a fraction by a power of two scales the nearest number alike.
pub proof fn lemma_closest_shifts(n: nat, d: nat, m: nat, c: nat, s: int)
    requires
        n > 0,
        d > 0,
        m > 0,
        c > 0,
        m * (d * down(2, s)) == n * (c * up(2, s)),
    ensures
        closest(m, c) == closest(n, d).shifted(s),
{
    let e = exponent_of(n, d);
    lemma_fit(n, d);
    lemma_mantissa(n, d);
    lemma_shifted_fraction(2, n, d, m, c, s, e);
    lemma_scale_is_positive(2, e);
    lemma_scale_is_positive(2, e + s);
    let (p, q) = (n * down(2, e), d * up(2, e));
    let (x, y) = (m * down(2, e + s), c * up(2, e + s));
    let u = up(2, e + s);
    assert(y > 0) by (nonlinear_arith)
        requires
            y == c * u,
            c > 0,
            u > 0,
    ;
    lemma_same_fraction(p, q, x, y, HALF as nat);
    lemma_same_fraction(p, q, x, y, TOP as nat);
    assert(fits_at(m, c, e + s));
    lemma_exponent_is(m, c, e + s);
    lemma_rounded_is_monotone(p, q, x, y);
    lemma_rounded_is_monotone(x, y, p, q);
}

/// The nearest number differs from the fraction by no more than one part in `TOP`.
pub proof fn lemma_closest_error(n: nat, d: nat)
    requires
        d > 0,
    ensures
        ({
            let r = closest(n, d);
            &&& (TOP - 1) * (n * r.denominator()) <= TOP * (r.numerator() * d)
            &&& TOP * (r.numerator() * d) <= (TOP + 1) * (n * r.denominator())
        }),
{
    let r = closest(n, d);
    if n == 0 {
        assert(r.numerator() == 0) by (nonlinear_arith)
            requires
                r.numerator() == 0 * up(2, r.exponent),
        ;
        assert(0 * r.denominator() == 0);
        assert(0 * d == 0);
    } else {
        let e = exponent_of(n, d);
        lemma_fit(n, d);
        lemma_mantissa(n, d);
        lemma_scale_is_positive(2, e);
        let (u, v) = (up(2, e), down(2, e));
        let m = rounded(n * v, d * u);
        lemma_rounded_is_nearest(n * v, d * u);
        let x = (n * v) as int;
        let y = (m * u) * d as int;
        assert((d * u) * (2 * m + 1) == 2 * y + d * u) by (nonlinear_arith)
            requires
                y == (m * u) * d,
        ;
        assert((d * u) * (2 * m) == 2 * y) by (nonlinear_arith)
            requires
                y == (m * u) * d,
        ;
        // 2 * x <= 2 * y + d * u, 2 * y <= 2 * x + d * u and HALF * d * u <= x.
        assert((TOP - 1) * x <= TOP * y);
        assert(TOP * y <= (TOP + 1) * x);
        if m == TOP {
            lemma_scale_adds(2, e, 1);
            let (w, z) = (up(2, e + 1), down(2, e + 1));
            assert(power(2, 1) == 2) by {
                reveal_with_fuel(power, 2);
            }
            assert(w * (v * 1) == z * (u * 2));
            lemma_scale_is_positive(2, e + 1);
            // The carried number has the same value.
            let (a, b) = ((n * z) as int, ((HALF as nat * w) * d) as int);
            assert(a * (u * 2) == x * w) by (nonlinear_arith)
                requires
                    a == n * z,
                    x == n * v,
                    w * v == z * (u * 2),
            ;
            assert(b * (u * 2) == y * w) by (nonlinear_arith)
                requires
                    b == (HALF * w) * d,
                    y == (TOP * u) * d,
                    TOP == 2 * HALF,
            ;
            let k = u * 2;
            assert((TOP - 1) * a * k <= TOP * b * k) by (nonlinear_arith)
                requires
                    a * k == x * w,
                    b * k == y * w,
                    (TOP - 1) * x <= TOP * y,
                    w > 0,
            ;
            assert(TOP * b * k <= (TOP + 1) * a * k) by (nonlinear_arith)
                requires
                    a * k == x * w,
                    b * k == y * w,
                    TOP * y <= (TOP + 1) * x,
                    w > 0,
            ;
            assert((TOP - 1) * a <= TOP * b && TOP * b <= (TOP + 1) * a) by (nonlinear_arith)
                requires
                    (TOP - 1) * a * k <= TOP * b * k,
                    TOP * b * k <= (TOP + 1) * a * k,
                    k > 0,
            ;
        }
    }
}

proof fn lemma_exponent_between(n: nat, d: nat, low: int, high: int)
    requires
        n > 0,
        d > 0,
        HALF * (d * up(2, low)) <= n * down(2, low),
        n * down(2, high) < TOP * (d * up(2, high)),
    ensures
        low <= exponent_of(n, d) <= high,
        low <= closest(n, d).exponent <= high + 1,
{
    lemma_fit(n, d);
    lemma_exponents_in_order(n, d, low, n, d, exponent_of(n, d));
    lemma_exponents_in_order(n, d, exponent_of(n, d), n, d, high);
}

/// A number of double precision that is not negative.
#[derive(Clone, Copy, Debug, PartialEq, Eq, Structural)]
pub struct Double {
    pub mantissa: u64,
    pub exponent: i64,
}

impl View for Double {
    type V = Number;

    open spec fn view(&self) -> Number {
        Number { mantissa: self.mantissa as nat, exponent: self.exponent as int }
    }
}

/// The number nearest to `n / d`.
pub fn closest_to(n: u128, d: u128) -> (number: Double)
    requires
        0 < d < 2 * TOP,
        n <= 0x100_0000_0000_0000_0000_0000_0000_0000,
    ensures
        number@ == closest(n as nat, d as nat),
        number@.is_normal(),
        -120 <= number.exponent <= 121,
{
    if n == 0 {
        return Double { mantissa: 0, exponent: 0 };
    }
    let mut p: u128 = n;
    let mut q: u128 = d;
    let mut e: i64 = 0;
    proof {
        lemma_powers_of_two();
        assert(power(2, 0) == 1);
    }
    assert(d * 1 == d);
    assert(n * 1 == n);
    if n >= TOP as u128 * d {
        while p >= TOP as u128 * q
            invariant
                TOP == 0x20_0000_0000_0000,
                HALF == 0x10_0000_0000_0000,
                0 <= e <= 120,
                p == n <= 0x100_0000_0000_0000_0000_0000_0000_0000,
                0 < d < 2 * TOP,
                q == d * power(2, e as nat),
                0 < q <= 0x10_0000_0000_0000_0000,
                HALF * q <= p,
            decreases p - q,
        {
            proof {
                lemma_powers_of_two();
                let k = power(2, e as nat);
                assert(q >= k) by (nonlinear_arith)
                    requires
                        q == d * k,
                        d > 0,
                ;
                if e == 120 {
                    assert(false);
                }
                assert(power(2, (e + 1) as nat) == 2 * k);
                assert(d * (2 * k) == 2 * (d * k)) by (nonlinear_arith);
            }
            q = q * 2;
            e += 1;
        }
        assert(n * 1 == n);
    } else {
        while p < HALF as u128 * q
            invariant
                TOP == 0x20_0000_0000_0000,
                HALF == 0x10_0000_0000_0000,
                -120 <= e <= 0,
                q == d,
                0 < n,
                0 < d < 2 * TOP,
                p == n * power(2, (-e) as nat),
                0 < p < TOP * d,
            decreases TOP * d - p,
        {
            proof {
                lemma_powers_of_two();
                let k = power(2, (-e) as nat);
                assert(p >= k) by (nonlinear_arith)
                    requires
                        p == n * k,
                        n > 0,
                ;
                if e == -120 {
                    assert(false);
                }
                assert(power(2, (-e + 1) as nat) == 2 * k);
                assert(n * (2 * k) == 2 * (n * k)) by (nonlinear_arith);
            }
            p = p * 2;
            e -= 1;
        }
        assert(d * 1 == d);
    }
    proof {
        assert(p == n * down(2, e as int));
        assert(q == d * up(2, e as int));
        assert(fits_at(n as nat, d as nat, e as int));
        lemma_exponent_is(n as nat, d as nat, e as int);
        lemma_mantissa(n as nat, d as nat);
    }
    let mantissa: u128 = divide_rounded(p, q);
    if mantissa == TOP as u128 {
        Double { mantissa: HALF, exponent: e + 1 }
    } else {
        Double { mantissa: mantissa as u64, exponent: e }
    }
}

/// The number nearest to a whole number.
pub fn whole(n: u64) -> (number: Double)
    ensures
        number@ == closest(n as nat, 1),
        number@.is_normal(),
        number.mantissa == 0 <==> n == 0,
        -52 <= number.exponent <= 12,
{
    proof {
        if n > 0 {
            lemma_powers_of_two();
            reveal_with_fuel(power, 12);
            assert(power(2, 11) == 2048);
            assert(up(2, -52) == 1 && down(2, -52) == HALF);
            assert(up(2, 11) == 2048 && down(2, 11) == 1);
            lemma_exponent_between(n as nat, 1, -52, 11);
        }
        lemma_closest_is_normal(n as nat, 1);
    }
    closest_to(n as u128, 1)
}

impl Double {
    /// This number times two to the power of `by`.
    pub fn shift(self, by: i64) -> (number: Double)
        requires
            -1000 <= self.exponent <= 1000,
            -2000 <= by <= 2000,
        ensures
            number@ == self@.shifted(by as int),
    {
        if self.mantissa == 0 {
            self
        } else {
            Double { mantissa: self.mantissa, exponent: self.exponent + by }
        }
    }

    /// The quotient.
    pub fn divide(self, other: Double) -> (number: Double)
        requires
            self@.is_normal(),
            other@.is_normal(),
            other.mantissa > 0,
            -1000 <= self.exponent <= 1000,
            -1000 <= other.exponent <= 1000,
        ensures
            number@ == self@.over(other@),
            number@.is_normal(),
            number.mantissa == 0 <==> self.mantissa == 0,
            number.mantissa > 0 ==> self.exponent - other.exponent - 53 <= number.exponent
                <= self.exponent - other.exponent - 51,
    {
        let ghost (a, b) = (self@, other@);
        proof {
            lemma_scale_is_positive(2, a.exponent);
            lemma_scale_is_positive(2, b.exponent);
        }
        if self.mantissa == 0 {
            assert(a.numerator() == 0) by (nonlinear_arith)
                requires
                    a.numerator() == 0 * up(2, a.exponent),
            ;
            assert(0 * b.denominator() == 0);
            return Double { mantissa: 0, exponent: 0 };
        }
        let quotient = closest_to(self.mantissa as u128, other.mantissa as u128);
        proof {
            let s = a.exponent - b.exponent;
            let (m, c) = (a.mantissa, b.mantissa);
            let (ua, da) = (up(2, a.exponent), down(2, a.exponent));
            let (ub, db) = (up(2, b.exponent), down(2, b.exponent));
            let (us, ds) = (up(2, s), down(2, s));
            lemma_scale_adds(2, b.exponent, s);
            assert(ua * (db * ds) == da * (ub * us));
            assert(((m * ua) * db) * (c * ds) == (m * c) * (ua * (db * ds))) by (nonlinear_arith);
            assert(m * ((da * (c * ub)) * us) == (m * c) * (da * (ub * us))) by (nonlinear_arith);
            assert((m * ua) * db > 0) by (nonlinear_arith)
                requires
                    m > 0,
                    ua > 0,
                    db > 0,
            ;
            assert(da * (c * ub) > 0) by (nonlinear_arith)
                requires
                    c > 0,
                    da > 0,
                    ub > 0,
            ;
            lemma_closest_shifts(m, c, (m * ua) * db, da * (c * ub), s);
            lemma_powers_of_two();
            assert(up(2, -53) == 1 && down(2, -53) == TOP);
            assert(up(2, -52) == 1 && down(2, -52) == HALF);
            lemma_exponent_between(m, c, -53, -52);
            lemma_closest_is_normal(m, c);
        }
        quotient.shift(self.exponent - other.exponent)
    }

    /// The product.
    pub fn multiply(self, other: Double) -> (number: Double)
        requires
            self@.is_normal(),
            other@.is_normal(),
            other.mantissa > 0,
            -500 <= self.exponent <= 500,
            -500 <= other.exponent <= 500,
        ensures
            number@ == self@.times(other@),
            number@.is_normal(),
            number.mantissa == 0 <==> self.mantissa == 0,
            number.mantissa > 0 ==> self.exponent + other.exponent + 52 <= number.exponent
                <= self.exponent + other.exponent + 54,
    {
        let ghost (a, b) = (self@, other@);
        proof {
            lemma_scale_is_positive(2, a.exponent);
            lemma_scale_is_positive(2, b.exponent);
        }
        if self.mantissa == 0 {
            assert(a.numerator() == 0) by (nonlinear_arith)
                requires
                    a.numerator() == 0 * up(2, a.exponent),
            ;
            assert(0 * b.numerator() == 0);
            return Double { mantissa: 0, exponent: 0 };
        }
        proof {
            let (m, c) = (a.mantissa as int, b.mantissa as int);
            assert(HALF * HALF <= m * c < TOP * TOP) by (nonlinear_arith)
                requires
                    HALF <= m < TOP,
                    HALF <= c < TOP,
            ;
        }
        let product = closest_to(self.mantissa as u128 * other.mantissa as u128, 1);
        proof {
            let s = a.exponent + b.exponent;
            let (m, c) = (a.mantissa, b.mantissa);
            let (ua, da) = (up(2, a.exponent), down(2, a.exponent));
            let (ub, db) = (up(2, b.exponent), down(2, b.exponent));
            let (us, ds) = (up(2, s), down(2, s));
            lemma_scale_adds(2, a.exponent, b.exponent);
            assert(((m * ua) * (c * ub)) * (1 * ds) == (m * c) * (ds * (ua * ub)))
                by (nonlinear_arith);
            assert((m * c) * ((da * db) * us) == (m * c) * (us * (da * db))) by (nonlinear_arith);
            assert((m * ua) * (c * ub) > 0) by (nonlinear_arith)
                requires
                    m > 0,
                    ua > 0,
                    c > 0,
                    ub > 0,
            ;
            assert(da * db > 0) by (nonlinear_arith)
                requires
                    da > 0,
                    db > 0,
            ;
            lemma_closest_shifts(m * c, 1, (m * ua) * (c * ub), da * db, s);
            lemma_powers_of_two();
            assert(up(2, 52) == HALF && down(2, 52) == 1);
            assert(up(2, 53) == TOP && down(2, 53) == 1);
            lemma_exponent_between(m * c, 1, 52, 53);
            lemma_closest_is_normal(m * c, 1);
        }
        product.shift(self.exponent + other.exponent)
    }

    /// The sum of two numbers whose exponents are not far apart.
    pub fn add_near(self, other: Double) -> (number: Double)
        requires
            self@.is_normal(),
            other@.is_normal(),
            self.mantissa > 0,
            other.mantissa > 0,
            -500 <= self.exponent <= 500,
            self.exponent - 66 <= other.exponent <= self.exponent + 66,
        ensures
            number@ == self@.plus(other@),
            number@.is_normal(),
            number.mantissa > 0,
            self.exponent <= number.exponent,
            other.exponent <= number.exponent,
            number.exponent <= self.exponent + 3 || number.exponent <= other.exponent + 3,
    {
        if self.exponent < other.exponent {
            let number = other.add_to_lower(self);
            proof {
                let (a, b) = (self@, other@);
                assert(a.numerator() * b.denominator() + b.numerator() * a.denominator()
                    == b.numerator() * a.denominator() + a.numerator() * b.denominator());
                assert(a.denominator() * b.denominator() == b.denominator() * a.denominator())
                    by (nonlinear_arith);
            }
            number
        } else {
            self.add_to_lower(other)
        }
    }

    fn add_to_lower(self, other: Double) -> (number: Double)
        requires
            self@.is_normal(),
            other@.is_normal(),
            self.mantissa > 0,
            other.mantissa > 0,
            -600 <= other.exponent <= 600,
            other.exponent <= self.exponent <= other.exponent + 66,
        ensures
            number@ == self@.plus(other@),
            number@.is_normal(),
            number.mantissa > 0,
            self.exponent <= number.exponent <= self.exponent + 3,
    {
        let by: i64 = self.exponent - other.exponent;
        let scale: u128 = power_of_two(by as u64);
        let ghost (m, c) = (self.mantissa as nat, other.mantissa as nat);
        proof {
            lemma_powers_of_two();
            if by < 66 {
                lemma_power_grows(2, by as nat, 66);
            }
            crate::power::lemma_power_is_positive(2, by as nat);
            assert(HALF * scale <= m * scale < TOP * scale) by (nonlinear_arith)
                requires
                    HALF <= m < TOP,
                    scale > 0,
            ;
        }
        let n: u128 = self.mantissa as u128 * scale + other.mantissa as u128;
        let sum = closest_to(n, 1);
        proof {
            let (a, b) = (self@, other@);
            let s = b.exponent;
            let k = scale as nat;
            let (ua, da) = (up(2, a.exponent), down(2, a.exponent));
            let (ub, db) = (up(2, s), down(2, s));
            lemma_scale_adds(2, s, by as int);
            assert(ua * (db * 1) == da * (ub * k));
            lemma_scale_is_positive(2, a.exponent);
            lemma_scale_is_positive(2, s);
            let top = (m * ua) * db + (c * ub) * da;
            assert((m * ua) * db == m * (ua * (db * 1))) by (nonlinear_arith);
            assert(m * (da * (ub * k)) == (m * k) * (da * ub)) by (nonlinear_arith);
            assert((c * ub) * da == c * (da * ub)) by (nonlinear_arith);
            assert((m * k) * (da * ub) + c * (da * ub) == n * (da * ub)) by (nonlinear_arith)
                requires
                    n == m * k + c,
            ;
            assert(top * (1 * db) == n * ((da * db) * ub)) by (nonlinear_arith)
                requires
                    top == n * (da * ub),
            ;
            assert(da * db > 0 && da * ub > 0) by (nonlinear_arith)
                requires
                    da > 0,
                    db > 0,
                    ub > 0,
            ;
            assert(top > 0) by (nonlinear_arith)
                requires
                    top == n * (da * ub),
                    da * ub > 0,
                    n > 0,
            ;
            lemma_closest_shifts(n as nat, 1, top, da * db, s);
            lemma_closest_is_normal(n as nat, 1);
            // The sum has between 53 and 55 bits above the scale.
            assert(up(2, by as int) == k && down(2, by as int) == 1);
            assert(power(2, (by + 1) as nat) == 2 * k);
            assert(power(2, (by + 2) as nat) == 2 * (2 * k));
            assert(up(2, by + 2) == 4 * k && down(2, by + 2) == 1);
            assert(n * 1 == n);
            lemma_exponent_between(n as nat, 1, by as int, by + 2);
        }
        sum.shift(other.exponent)
    }

    /// Whether this number is at most `other`.
    pub fn is_at_most(self, other: Double) -> (found: bool)
        ensures
            found == self@.at_most(other@),
    {
        self.mantissa == 0 || (other.mantissa > 0 && (self.exponent < other.exponent || (
        self.exponent == other.exponent && self.mantissa <= other.mantissa)))
    }

    /// The number as a fraction.
    pub fn fraction(self) -> (parts: (u128, u128))
        requires
            self.mantissa < TOP,
            -120 <= self.exponent <= 54,
        ensures
            parts.0 == self@.numerator(),
            parts.1 == self@.denominator(),
            parts.0 < 0x800_0000_0000_0000_0000_0000_0000,
            self.exponent <= 0 ==> parts.0 == self.mantissa,
            self.exponent <= 14 ==> parts.0 < 0x8_0000_0000_0000_0000,
            0 < parts.1 <= 0x100_0000_0000_0000_0000_0000_0000_0000,
            self.exponent >= -110 ==> parts.1 <= 0x4000_0000_0000_0000_0000_0000_0000,
    {
        proof {
            lemma_powers_of_two();
            lemma_scale_is_positive(2, self.exponent as int);
        }
        assert(power(2, 0) == 1);
        assert(self.mantissa * 1 == self.mantissa);
        if self.exponent >= 0 {
            let scale: u128 = power_of_two(self.exponent as u64);
            proof {
                if self.exponent < 54 {
                    lemma_power_grows(2, self.exponent as nat, 54);
                }
                let m = self.mantissa as int;
                assert(power(2, 14) == 16_384) by {
                    reveal_with_fuel(power, 15);
                }
                if self.exponent < 14 {
                    lemma_power_grows(2, self.exponent as nat, 14);
                }
                assert(scale <= 16_384 ==> m * scale <= TOP * 16_384 - 1) by (nonlinear_arith)
                    requires
                        0 <= m < TOP,
                        0 < scale,
                ;
                assert(m * scale <= TOP * (2 * TOP) - 1) by (nonlinear_arith)
                    requires
                        0 <= m < TOP,
                        0 < scale <= 2 * TOP,
                ;
            }
            (self.mantissa as u128 * scale, 1)
        } else {
            let scale: u128 = power_of_two((-self.exponent) as u64);
            proof {
                let k = (-self.exponent) as nat;
                lemma_power_adds(2, 56, 54);
                lemma_power_adds(2, 54, 2);
                reveal_with_fuel(power, 3);
                if k < 110 {
                    lemma_power_grows(2, k, 110);
                }
                if k < 120 {
                    lemma_power_grows(2, k, 120);
                }
            }
            (self.mantissa as u128, scale)
        }
    }
}

impl Number {
    /// This number times `factor`, rounded to the nearest whole number.
    pub open spec fn times_rounded(self, factor: nat) -> nat {
        rounded(self.numerator() * factor, self.denominator())
    }
}

/// The number nearest to one is one.
pub proof fn lemma_one()
    ensures
        closest(1, 1) == (Number { mantissa: HALF as nat, exponent: -52 }),
        closest(1, 1).numerator() == closest(1, 1).denominator(),
{
    lemma_powers_of_two();
    assert(up(2, -52) == 1 && down(2, -52) == HALF);
    assert(fits_at(1, 1, -52));
    lemma_exponent_is(1, 1, -52);
    lemma_rounded_between(HALF as nat, 1, HALF as nat, HALF as nat);
}

/// The order of numbers is that of their values.
pub proof fn lemma_order_is_by_value(a: Number, b: Number)
    requires
        a.is_normal(),
        b.is_normal(),
    ensures
        a.at_most(b) <==> a.numerator() * b.denominator() <= b.numerator() * a.denominator(),
{
    lemma_scale_is_positive(2, a.exponent);
    lemma_scale_is_positive(2, b.exponent);
    let (m, c) = (a.mantissa, b.mantissa);
    let (ua, da) = (up(2, a.exponent), down(2, a.exponent));
    let (ub, db) = (up(2, b.exponent), down(2, b.exponent));
    let left = (m * ua) * db;
    let right = (c * ub) * da;
    let (x, y) = (ua * db, ub * da);
    assert(left == m * x) by (nonlinear_arith)
        requires
            left == (m * ua) * db,
            x == ua * db,
    ;
    assert(right == c * y) by (nonlinear_arith)
        requires
            right == (c * ub) * da,
            y == ub * da,
    ;
    assert(x > 0 && y > 0) by (nonlinear_arith)
        requires
            x == ua * db,
            y == ub * da,
            ua > 0,
            ub > 0,
            da > 0,
            db > 0,
    ;
    if m == 0 || c == 0 {
        assert(m == 0 ==> m * x == 0) by (nonlinear_arith);
        assert(c == 0 ==> c * y == 0) by (nonlinear_arith);
        assert(m > 0 ==> m * x > 0) by (nonlinear_arith)
            requires
                x > 0,
        ;
    } else if a.exponent == b.exponent {
        assert(x == y) by (nonlinear_arith)
            requires
                x == ua * db,
                y == ub * da,
                ua == ub,
                da == db,
        ;
        assert(m <= c <==> m * x <= c * x) by (nonlinear_arith)
            requires
                x > 0,
        ;
    } else if a.exponent < b.exponent {
        lemma_scale_adds(2, a.exponent, b.exponent - a.exponent);
        lemma_power_grows(2, 0, (b.exponent - a.exponent) as nat);
        let k = up(2, b.exponent - a.exponent);
        assert(power(2, 0) == 1);
        assert(ub * (da * 1) == db * (ua * k));
        assert(y == k * x) by (nonlinear_arith)
            requires
                ub * da == db * (ua * k),
                x == ua * db,
                y == ub * da,
        ;
        assert(m * x <= c * y) by (nonlinear_arith)
            requires
                m < 2 * HALF,
                c >= HALF,
                k >= 2,
                y == k * x,
                x > 0,
        ;
    } else {
        lemma_scale_adds(2, b.exponent, a.exponent - b.exponent);
        lemma_power_grows(2, 0, (a.exponent - b.exponent) as nat);
        let k = up(2, a.exponent - b.exponent);
        assert(power(2, 0) == 1);
        assert(ua * (db * 1) == da * (ub * k));
        assert(x == k * y) by (nonlinear_arith)
            requires
                ua * db == da * (ub * k),
                x == ua * db,
                y == ub * da,
        ;
        assert(c * y < m * x) by (nonlinear_arith)
            requires
                c < 2 * HALF,
                m >= HALF,
                k >= 2,
                x == k * y,
                y > 0,
        ;
    }
}

/// `nanos` nanoseconds in seconds: the whole seconds, and the rest as a part of one.
pub open spec fn seconds_of(nanos: nat) -> Number {
    let rest = closest(nanos % SECOND as nat, 1).over(closest(SECOND as nat, 1));
    closest(nanos / SECOND as nat, 1).plus(rest)
}

/// Zero changes nothing that it is added to.
proof fn lemma_plus_zero(a: Number)
    requires
        a.is_normal(),
    ensures
        a.plus(Number { mantissa: 0, exponent: 0 }) == a,
        (Number { mantissa: 0, exponent: 0 }).plus(a) == a,
{
    let zero = Number { mantissa: 0, exponent: 0 };
    assert(power(2, 0) == 1);
    assert(zero.numerator() == 0 && zero.denominator() == 1);
    let (n, d) = (a.numerator(), a.denominator());
    lemma_scale_is_positive(2, a.exponent);
    assert(n * 1 + 0 * d == n && 0 * d + n * 1 == n);
    assert(d * 1 == d && 1 * d == d);
    if a.mantissa > 0 {
        let (m, u) = (a.mantissa, up(2, a.exponent));
        assert(n > 0) by (nonlinear_arith)
            requires
                n == m * u,
                m > 0,
                u > 0,
        ;
        assert(fits_at(n, d, a.exponent)) by {
            assert(n * d == m * (d * u)) by (nonlinear_arith)
                requires
                    n == m * u,
            ;
            assert(HALF * (d * u) <= m * (d * u) < TOP * (d * u)) by (nonlinear_arith)
                requires
                    HALF <= m < TOP,
                    d > 0,
                    u > 0,
            ;
        }
        lemma_exponent_is(n, d, a.exponent);
        let (x, y) = (n * d, d * u);
        assert(x == m * y) by (nonlinear_arith)
            requires
                x == (m * u) * d,
                y == d * u,
        ;
        assert(y > 0) by (nonlinear_arith)
            requires
                y == d * u,
                d > 0,
                u > 0,
        ;
        lemma_rounded_between(x, y, m, m);
    } else {
        assert(n == 0) by (nonlinear_arith)
            requires
                n == 0 * up(2, a.exponent),
        ;
    }
}

/// `nanos` nanoseconds in seconds.
pub fn seconds(nanos: u64) -> (number: Double)
    ensures
        number@ == seconds_of(nanos as nat),
        number@.is_normal(),
        number.mantissa == 0 <==> nanos == 0,
        number.mantissa > 0 ==> -82 <= number.exponent <= -14,
{
    let secs: u64 = nanos / SECOND;
    let rest: u64 = nanos % SECOND;
    let left = whole(secs);
    let unit = whole(SECOND);
    proof {
        lemma_powers_of_two();
        lemma_bounds_of_seconds(nanos);
    }
    let right = whole(rest).divide(unit);
    if rest == 0 {
        proof {
            lemma_plus_zero(left@);
        }
        left
    } else if secs == 0 {
        proof {
            lemma_plus_zero(right@);
        }
        right
    } else {
        left.add_near(right)
    }
}

proof fn lemma_bounds_of_seconds(nanos: u64)
    ensures
        closest(SECOND as nat, 1).exponent == -23,
        nanos >= SECOND ==> -52 <= closest((nanos / SECOND) as nat, 1).exponent <= -17,
        nanos % SECOND > 0 ==> -52 <= closest((nanos % SECOND) as nat, 1).exponent <= -22,
{
    lemma_powers_of_two();
    reveal_with_fuel(power, 12);
    lemma_power_adds(2, 12, 11);
    lemma_power_adds(2, 11, 11);
    lemma_power_adds(2, 11, 7);
    assert(power(2, 7) == 128);
    assert(power(2, 11) == 2048);
    assert(power(2, 12) == 4096);
    assert(power(2, 18) == 262_144);
    assert(power(2, 22) == 4_194_304);
    assert(power(2, 23) == 8_388_608);
    assert(up(2, -23) == 1 && down(2, -23) == 8_388_608);
    assert(up(2, -22) == 1 && down(2, -22) == 4_194_304);
    assert(up(2, -18) == 1 && down(2, -18) == 262_144);
    assert(up(2, -52) == 1 && down(2, -52) == HALF);
    assert(fits_at(SECOND as nat, 1, -23));
    lemma_exponent_is(SECOND as nat, 1, -23);
    lemma_rounded_between(
        SECOND as nat * 8_388_608,
        1,
        SECOND as nat * 8_388_608,
        SECOND as nat * 8_388_608,
    );
    if nanos >= SECOND {
        lemma_exponent_between((nanos / SECOND) as nat, 1, -52, -18);
    }
    if nanos % SECOND > 0 {
        lemma_exponent_between((nanos % SECOND) as nat, 1, -52, -23);
    }
}

/// A number is nearest to itself.
pub proof fn lemma_numbers_are_kept(a: Number)
    requires
        a.is_normal(),
    ensures
        closest(a.numerator(), a.denominator()) == a,
{
    let zero = Number { mantissa: 0, exponent: 0 };
    let (n, d) = (a.numerator(), a.denominator());
    let (zn, zd) = (zero.numerator(), zero.denominator());
    assert(power(2, 0) == 1);
    assert(zn == 0 && zd == 1);
    assert(n * zd + zn * d == n && d * zd == d) by (nonlinear_arith)
        requires
            zn == 0,
            zd == 1,
    ;
    lemma_plus_zero(a);
    assert(a.plus(zero) == closest(n, d));
}

/// Whole numbers of up to 53 bits need no rounding.
pub proof fn lemma_whole_numbers_are_kept(k: nat)
    requires
        k < TOP,
    ensures
        closest(k, 1).numerator() == k * closest(k, 1).denominator(),
{
    assert(power(2, 0) == 1);
    if k > 0 {
        let e = exponent_of(k, 1);
        let (u, v) = (up(2, e), down(2, e));
        lemma_fit(k, 1);
        assert(1 * u == u);
        if e > 0 {
            lemma_power_grows(2, 0, e as nat);
            assert(k * 1 == k);
        }
        assert(u == 1);
        lemma_rounded_between(k * v, 1, k * v, k * v);
        assert(rounded(k * v, 1 * u) == k * v);
        assert(closest(k, 1) == (Number { mantissa: k * v, exponent: e }));
        assert((k * v) * 1 == k * v);
    }
}

/// Fractions of the same value have the same number nearest to them.
pub proof fn lemma_closest_is_by_value(n: nat, d: nat, m: nat, c: nat)
    requires
        d > 0,
        c > 0,
        n * c == m * d,
    ensures
        closest(n, d) == closest(m, c),
{
    if n == 0 {
        assert(m == 0) by (nonlinear_arith)
            requires
                0 * c == m * d,
                d > 0,
        ;
    } else {
        assert(m > 0) by (nonlinear_arith)
            requires
                n * c == m * d,
                n > 0,
                c > 0,
        ;
        assert(power(2, 0) == 1);
        assert(d * 1 == d && c * 1 == c);
        lemma_closest_shifts(n, d, m, c, 0);
    }
}

/// Shifting multiplies by a power of two, without rounding.
pub proof fn lemma_shifting_is_exact(a: Number, by: int)
    ensures
        a.shifted(by).numerator() * (a.denominator() * down(2, by)) == (a.numerator() * up(2, by))
            * a.shifted(by).denominator(),
{
    let (m, e) = (a.mantissa, a.exponent);
    let (u, v) = (up(2, e), down(2, e));
    let (s, t) = (up(2, by), down(2, by));
    if m == 0 {
        assert(m * u == 0) by (nonlinear_arith)
            requires
                m == 0,
        ;
        assert(0 * (v * t) == 0 && 0 * s == 0 && 0 * v == 0);
    } else {
        let (w, z) = (up(2, e + by), down(2, e + by));
        lemma_scale_adds(2, e, by);
        assert((m * w) * (v * t) == ((m * u) * s) * z) by (nonlinear_arith)
            requires
                w * (v * t) == z * (u * s),
        ;
    }
}

/// Sums, products and quotients are those of the values, but for one rounding of at most one
/// part in `TOP`.
pub proof fn lemma_arithmetic_is_close(a: Number, b: Number)
    requires
        b.mantissa > 0,
    ensures
        ({
            let (r, n, d) = (
                a.plus(b),
                a.numerator() * b.denominator() + b.numerator() * a.denominator(),
                a.denominator() * b.denominator(),
            );
            (TOP - 1) * (n * r.denominator()) <= TOP * (r.numerator() * d) <= (TOP + 1) * (n
                * r.denominator())
        }),
        ({
            let (r, n, d) = (
                a.times(b),
                a.numerator() * b.numerator(),
                a.denominator() * b.denominator(),
            );
            (TOP - 1) * (n * r.denominator()) <= TOP * (r.numerator() * d) <= (TOP + 1) * (n
                * r.denominator())
        }),
        ({
            let (r, n, d) = (
                a.over(b),
                a.numerator() * b.denominator(),
                a.denominator() * b.numerator(),
            );
            (TOP - 1) * (n * r.denominator()) <= TOP * (r.numerator() * d) <= (TOP + 1) * (n
                * r.denominator())
        }),
        a.plus(b) == b.plus(a),
        a.times(b) == b.times(a),
{
    lemma_scale_is_positive(2, a.exponent);
    lemma_scale_is_positive(2, b.exponent);
    let (an, ad, bn, bd) = (a.numerator(), a.denominator(), b.numerator(), b.denominator());
    assert(bn > 0) by (nonlinear_arith)
        requires
            bn == b.mantissa * up(2, b.exponent),
            b.mantissa > 0,
            up(2, b.exponent) > 0,
    ;
    assert(ad * bd > 0 && ad * bn > 0) by (nonlinear_arith)
        requires
            ad > 0,
            bd > 0,
            bn > 0,
    ;
    assert(ad * bd == bd * ad && an * bn == bn * an) by (nonlinear_arith);
    lemma_closest_error(an * bd + bn * ad, ad * bd);
    lemma_closest_error(an * bn, ad * bd);
    lemma_closest_error(an * bd, ad * bn);
}

/// Seconds are counted in two parts, each of them rounded once: the fraction of a second, and
/// then its sum with the whole seconds.
pub proof fn lemma_seconds_are_rounded_twice(nanos: u64)
    ensures
        ({
            let rest = closest((nanos % SECOND) as nat, SECOND as nat);
            seconds_of(nanos as nat) == closest(
                (nanos / SECOND) as nat * rest.denominator() + rest.numerator(),
                rest.denominator(),
            )
        }),
{
    let (q, r, s) = ((nanos / SECOND) as nat, (nanos % SECOND) as nat, SECOND as nat);
    let (a, b, c) = (closest(q, 1), closest(r, 1), closest(s, 1));
    lemma_whole_numbers_are_kept(q);
    lemma_whole_numbers_are_kept(r);
    lemma_whole_numbers_are_kept(s);
    lemma_scale_is_positive(2, a.exponent);
    lemma_scale_is_positive(2, b.exponent);
    lemma_scale_is_positive(2, c.exponent);
    let (ad, bd, cd) = (a.denominator(), b.denominator(), c.denominator());
    let rest = closest(r, s);
    assert(bd * (s * cd) > 0 && (r * bd * cd) * s == r * (bd * (s * cd))) by (nonlinear_arith)
        requires
            bd > 0,
            cd > 0,
            s > 0,
    ;
    lemma_closest_is_by_value(r * bd * cd, bd * (s * cd), r, s);
    assert(b.over(c) == rest);
    lemma_scale_is_positive(2, rest.exponent);
    let (rn, rd) = (rest.numerator(), rest.denominator());
    let x = (q * ad) * rd + rn * ad;
    assert(ad * rd > 0 && x * rd == (q * rd + rn) * (ad * rd)) by (nonlinear_arith)
        requires
            x == (q * ad) * rd + rn * ad,
            ad > 0,
            rd > 0,
    ;
    lemma_closest_is_by_value(x, ad * rd, q * rd + rn, rd);
}

/// Nanoseconds are counted in seconds to within two parts in `TOP`, and no whole second is
/// lost.
pub proof fn lemma_seconds_are_close(nanos: u64)
    ensures
        ({
            let s = seconds_of(nanos as nat);
            &&& (TOP - 1) * (TOP - 1) * (nanos * s.denominator()) <= TOP * TOP * (s.numerator()
                * SECOND)
            &&& TOP * TOP * (s.numerator() * SECOND) <= (TOP + 1) * (TOP + 1) * (nanos
                * s.denominator())
            &&& (nanos / SECOND) * s.denominator() <= s.numerator()
            &&& s.denominator() > 0
            &&& s.is_normal()
        }),
{
    let (q, r, c) = ((nanos / SECOND) as nat, (nanos % SECOND) as nat, SECOND as nat);
    let rest = closest(r, c);
    lemma_seconds_are_rounded_twice(nanos);
    lemma_scale_is_positive(2, rest.exponent);
    let (rn, rd) = (rest.numerator(), rest.denominator());
    let x = q * rd + rn;
    let s = seconds_of(nanos as nat);
    let (sn, sd) = (s.numerator(), s.denominator());
    lemma_closest_error(r, c);
    lemma_closest_error(x, rd);
    lemma_closest_is_normal(x, rd);
    lemma_scale_is_positive(2, s.exponent);
    let t = TOP as int;
    let n = nanos as int;
    assert(n == q * c + r);
    assert((t - 1) * (n * rd) <= t * (c * x)) by (nonlinear_arith)
        requires
            (t - 1) * (r * rd) <= t * (rn * c),
            n == q * c + r,
            x == q * rd + rn,
            q >= 0,
            c >= 0,
            rd >= 0,
    ;
    assert(t * (c * x) <= (t + 1) * (n * rd)) by (nonlinear_arith)
        requires
            t * (rn * c) <= (t + 1) * (r * rd),
            n == q * c + r,
            x == q * rd + rn,
            q >= 0,
            c >= 0,
            rd >= 0,
    ;
    assert((t - 1) * (x * sd) <= t * (sn * rd) <= (t + 1) * (x * sd));
    assert((t - 1) * (t - 1) * (n * sd) <= t * t * (sn * c)) by {
        let y = c * x;
        assert((t - 1) * ((t - 1) * (n * rd)) * sd <= (t - 1) * (t * y) * sd) by (nonlinear_arith)
            requires
                (t - 1) * (n * rd) <= t * y,
                t >= 1,
                sd >= 0,
        ;
        assert((t - 1) * (t * y) * sd == t * c * ((t - 1) * (x * sd))) by (nonlinear_arith)
            requires
                y == c * x,
        ;
        assert(t * c * ((t - 1) * (x * sd)) <= t * c * (t * (sn * rd))) by (nonlinear_arith)
            requires
                (t - 1) * (x * sd) <= t * (sn * rd),
                t >= 0,
                c >= 0,
        ;
        assert((t - 1) * ((t - 1) * (n * rd)) * sd == ((t - 1) * (t - 1) * (n * sd)) * rd)
            by (nonlinear_arith);
        assert(t * c * (t * (sn * rd)) == (t * t * (sn * c)) * rd) by (nonlinear_arith);
        lemma_cancel((t - 1) * (t - 1) * (n * sd), t * t * (sn * c), rd as int);
    }
    assert(t * t * (sn * c) <= (t + 1) * (t + 1) * (n * sd)) by {
        let y = c * x;
        assert((t + 1) * (t * y) * sd <= (t + 1) * ((t + 1) * (n * rd)) * sd) by (nonlinear_arith)
            requires
                t * y <= (t + 1) * (n * rd),
                t >= 1,
                sd >= 0,
        ;
        assert((t + 1) * (t * y) * sd == t * c * ((t + 1) * (x * sd))) by (nonlinear_arith)
            requires
                y == c * x,
        ;
        assert(t * c * (t * (sn * rd)) <= t * c * ((t + 1) * (x * sd))) by (nonlinear_arith)
            requires
                t * (sn * rd) <= (t + 1) * (x * sd),
                t >= 0,
                c >= 0,
        ;
        assert((t + 1) * ((t + 1) * (n * rd)) * sd == ((t + 1) * (t + 1) * (n * sd)) * rd)
            by (nonlinear_arith);
        assert(t * c * (t * (sn * rd)) == (t * t * (sn * c)) * rd) by (nonlinear_arith);
        lemma_cancel(t * t * (sn * c), (t + 1) * (t + 1) * (n * sd), rd as int);
    }
    let a = closest(q, 1);
    lemma_whole_numbers_are_kept(q);
    lemma_closest_is_normal(q, 1);
    lemma_scale_is_positive(2, a.exponent);
    assert(x * 1 == x);
    lemma_closest_is_monotone(q, 1, x, rd);
    lemma_order_is_by_value(a, s);
    let ad = a.denominator();
    assert((q * ad) * sd == (q * sd) * ad) by (nonlinear_arith);
    lemma_cancel((q * sd) as int, sn as int, ad as int);
}

/// A positive factor on both sides can be left out.
pub(crate) proof fn lemma_cancel(a: int, b: int, c: int)
    requires
        c > 0,
        a * c <= b * c,
    ensures
        a <= b,
{
    assert(a <= b) by (nonlinear_arith)
        requires
            c > 0,
            a * c <= b * c,
    ;
}

/// The quotient of two whole numbers of up to 53 bits is rounded once.
pub proof fn lemma_quotients_are_rounded_once(n: nat, d: nat)
    requires
        n < TOP,
        0 < d < TOP,
    ensures
        closest(n, 1).over(closest(d, 1)) == closest(n, d),
{
    let (a, b) = (closest(n, 1), closest(d, 1));
    lemma_whole_numbers_are_kept(n);
    lemma_whole_numbers_are_kept(d);
    lemma_scale_is_positive(2, a.exponent);
    lemma_scale_is_positive(2, b.exponent);
    let (ad, bd) = (a.denominator(), b.denominator());
    assert(ad * (d * bd) > 0 && (n * ad * bd) * d == n * (ad * (d * bd))) by (nonlinear_arith)
        requires
            ad > 0,
            bd > 0,
            d > 0,
    ;
    lemma_closest_is_by_value(n * ad * bd, ad * (d * bd), n, d);
}

} // verus!
