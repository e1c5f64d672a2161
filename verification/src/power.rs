//! Powers of a whole number, and fractions that are scaled by them.

use vstd::prelude::*;

verus! {

/// `base` to the power of `e`.
pub open spec fn power(base: nat, e: nat) -> nat
    decreases e,
{
    if e == 0 {
        1
    } else {
        base * power(base, (e - 1) as nat)
    }
}

/// The numerator of `base` to the power of `e`, which may be negative.
pub open spec fn up(base: nat, e: int) -> nat {
    if e >= 0 {
        power(base, e as nat)
    } else {
        1
    }
}

/// The denominator of `base` to the power of `e`, which may be negative.
pub open spec fn down(base: nat, e: int) -> nat {
    if e < 0 {
        power(base, (-e) as nat)
    } else {
        1
    }
}

/// A power of a positive number is positive.
pub proof fn lemma_power_is_positive(base: nat, e: nat)
    requires
        base > 0,
    ensures
        power(base, e) > 0,
    decreases e,
{
    if e > 0 {
        lemma_power_is_positive(base, (e - 1) as nat);
        let p = power(base, (e - 1) as nat);
        assert(base * p > 0) by (nonlinear_arith)
            requires
                base > 0,
                p > 0,
        ;
    }
}

/// Exponents add up.
pub proof fn lemma_power_adds(base: nat, a: nat, b: nat)
    ensures
        power(base, a + b) == power(base, a) * power(base, b),
    decreases a,
{
    if a > 0 {
        lemma_power_adds(base, (a - 1) as nat, b);
        let (p, q) = (power(base, (a - 1) as nat), power(base, b));
        assert(base * (p * q) == base * p * q) by (nonlinear_arith);
        assert(power(base, a + b) == base * power(base, (a - 1) as nat + b));
    } else {
        assert(power(base, 0) == 1);
        assert(0 + b == b);
    }
}

/// A greater exponent gives a power that is greater by the base at least.
pub proof fn lemma_power_grows(base: nat, a: nat, b: nat)
    requires
        base >= 1,
        a < b,
    ensures
        base * power(base, a) <= power(base, b),
{
    let rest = power(base, (b - a - 1) as nat);
    lemma_power_is_positive(base, (b - a - 1) as nat);
    lemma_power_adds(base, a + 1, (b - a - 1) as nat);
    let next = power(base, a + 1);
    assert(next * rest >= next) by (nonlinear_arith)
        requires
            rest >= 1,
    ;
}

/// Both parts of a power are positive.
pub proof fn lemma_scale_is_positive(base: nat, e: int)
    requires
        base > 0,
    ensures
        up(base, e) > 0,
        down(base, e) > 0,
{
    if e >= 0 {
        lemma_power_is_positive(base, e as nat);
    } else {
        lemma_power_is_positive(base, (-e) as nat);
    }
}

/// Exponents add up, negative ones too.
pub proof fn lemma_scale_adds(base: nat, a: int, b: int)
    ensures
        up(base, a + b) * (down(base, a) * down(base, b)) == down(base, a + b) * (up(base, a) * up(
            base,
            b,
        )),
{
    let (ua, da, ub, db) = (up(base, a), down(base, a), up(base, b), down(base, b));
    let (us, ds) = (up(base, a + b), down(base, a + b));
    if a >= 0 && b >= 0 {
        lemma_power_adds(base, a as nat, b as nat);
        assert(us * (1 * 1) == 1 * us);
    } else if a < 0 && b < 0 {
        lemma_power_adds(base, (-a) as nat, (-b) as nat);
        assert(1 * (da * db) == (da * db) * (1 * 1)) by (nonlinear_arith);
    } else if a >= 0 {
        if a + b >= 0 {
            lemma_power_adds(base, (a + b) as nat, (-b) as nat);
            assert(us * (1 * db) == us * db);
            assert(1 * (ua * 1) == ua);
        } else {
            lemma_power_adds(base, (-a - b) as nat, a as nat);
            assert(1 * (1 * db) == db);
            assert(ds * (ua * 1) == ds * ua);
        }
    } else {
        if a + b >= 0 {
            lemma_power_adds(base, (a + b) as nat, (-a) as nat);
            assert(us * (da * 1) == us * da);
            assert(1 * (1 * ub) == ub);
        } else {
            lemma_power_adds(base, (-a - b) as nat, b as nat);
            assert(1 * (da * 1) == da);
            assert(ds * (1 * ub) == ds * ub);
        }
    }
}

/// Two fractions of the same value compare alike with whole numbers.
pub proof fn lemma_same_fraction(n: nat, d: nat, m: nat, c: nat, k: nat)
    requires
        d > 0,
        c > 0,
        n * c == m * d,
    ensures
        k * d <= n <==> k * c <= m,
{
    assert(k * d <= n <==> k * d * c <= n * c) by (nonlinear_arith)
        requires
            c > 0,
    ;
    assert(k * c <= m <==> k * c * d <= m * d) by (nonlinear_arith)
        requires
            d > 0,
    ;
    assert(k * d * c == k * c * d) by (nonlinear_arith);
}

/// Shifting a fraction: if `m / c` is `n / d` times `base` to the power of `s`, then
/// dividing the one by a power and the other by that power shifted gives the same.
pub proof fn lemma_shifted_fraction(base: nat, n: nat, d: nat, m: nat, c: nat, s: int, e: int)
    requires
        base > 0,
        m * (d * down(base, s)) == n * (c * up(base, s)),
    ensures
        (n * down(base, e)) * (c * up(base, e + s)) == (m * down(base, e + s)) * (d * up(base, e)),
{
    lemma_scale_adds(base, e, s);
    lemma_scale_is_positive(base, s);
    let (us, ds) = (up(base, s), down(base, s));
    let (ue, de) = (up(base, e), down(base, e));
    let (ut, dt) = (up(base, e + s), down(base, e + s));
    let left = (n * de) * (c * ut);
    let right = (m * dt) * (d * ue);
    assert(left * us == (n * (c * us)) * (de * ut)) by (nonlinear_arith)
        requires
            left == (n * de) * (c * ut),
    ;
    assert((m * (d * ds)) * (de * ut) == (m * d) * (ut * (de * ds))) by (nonlinear_arith);
    assert(right * us == (m * d) * (dt * (ue * us))) by (nonlinear_arith)
        requires
            right == (m * dt) * (d * ue),
    ;
    assert(left == right) by (nonlinear_arith)
        requires
            left * us == right * us,
            us > 0,
    ;
}

/// The powers of two that matter for numbers of double precision.
pub proof fn lemma_powers_of_two()
    ensures
        power(2, 52) == 0x10_0000_0000_0000,
        power(2, 53) == 0x20_0000_0000_0000,
        power(2, 54) == 0x40_0000_0000_0000,
        power(2, 64) == 0x1_0000_0000_0000_0000,
        power(2, 66) == 0x4_0000_0000_0000_0000,
        power(2, 120) == 0x100_0000_0000_0000_0000_0000_0000_0000,
        power(2, 126) == 0x4000_0000_0000_0000_0000_0000_0000_0000,
{
    reveal_with_fuel(power, 12);
    assert(power(2, 11) == 0x800);
    assert(power(2, 10) == 0x400);
    assert(power(2, 9) == 0x200);
    assert(power(2, 8) == 0x100);
    assert(power(2, 2) == 4);
    lemma_power_adds(2, 11, 11);
    assert(power(2, 22) == 0x40_0000);
    lemma_power_adds(2, 22, 22);
    assert(power(2, 44) == 0x1000_0000_0000);
    lemma_power_adds(2, 44, 8);
    assert(power(2, 52) == 0x10_0000_0000_0000);
    lemma_power_adds(2, 44, 9);
    lemma_power_adds(2, 44, 10);
    lemma_power_adds(2, 54, 8);
    assert(power(2, 62) == 0x4000_0000_0000_0000);
    lemma_power_adds(2, 54, 10);
    assert(power(2, 64) == 0x1_0000_0000_0000_0000);
    lemma_power_adds(2, 64, 2);
    lemma_power_adds(2, 66, 54);
    lemma_power_adds(2, 64, 62);
}

/// Two to the power of `e`.
pub fn power_of_two(e: u64) -> (p: u128)
    requires
        e <= 126,
    ensures
        p == power(2, e as nat),
{
    let mut p: u128 = 1;
    let mut i: u64 = 0;
    while i < e
        invariant
            i <= e <= 126,
            p == power(2, i as nat),
        decreases e - i,
    {
        proof {
            lemma_powers_of_two();
            if i < 125 {
                lemma_power_grows(2, i as nat, 126);
            } else {
                lemma_power_grows(2, 125, 126);
            }
        }
        i += 1;
        p = p * 2;
    }
    p
}

} // verus!
