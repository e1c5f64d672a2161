//! Whole numbers of any size, as far as round numbers need them.

use crate::power::{power};
use vstd::prelude::*;

verus! {

/// Each limb counts up to this, which is two to the power of 32.
pub const BASE: u64 = 0x1_0000_0000;

/// The number that limbs write, least significant limb first.
pub open spec fn value_of(limbs: Seq<u32>) -> nat
    decreases limbs.len(),
{
    if limbs.len() == 0 {
        0
    } else {
        value_of(limbs.drop_last()) + limbs.last() as nat * power(
            BASE as nat,
            (limbs.len() - 1) as nat,
        )
    }
}

proof fn lemma_value_is_below(limbs: Seq<u32>)
    ensures
        value_of(limbs) < power(BASE as nat, limbs.len()),
    decreases limbs.len(),
{
    if limbs.len() > 0 {
        lemma_value_is_below(limbs.drop_last());
        let p = power(BASE as nat, (limbs.len() - 1) as nat);
        let (l, b) = (limbs.last() as nat, BASE as nat);
        assert(power(b, limbs.len()) == b * p);
        assert(p + l * p <= b * p) by (nonlinear_arith)
            requires
                l + 1 <= b,
        ;
    }
}

/// A whole number of any size.
#[derive(Debug)]
pub struct Natural {
    limbs: Vec<u32>,
}

impl View for Natural {
    type V = nat;

    closed spec fn view(&self) -> nat {
        value_of(self.limbs@)
    }
}

impl Natural {
    /// A number of 64 bits.
    pub fn from_number(n: u64) -> (number: Natural)
        ensures
            number@ == n,
    {
        let mut limbs: Vec<u32> = Vec::new();
        limbs.push((n % BASE) as u32);
        limbs.push((n / BASE) as u32);
        proof {
            let low = limbs@.drop_last();
            assert(low.drop_last() =~= Seq::empty());
            reveal_with_fuel(power, 2);
            reveal_with_fuel(value_of, 3);
            assert(low.last() == (n % BASE) as u32);
            assert(limbs@.last() == (n / BASE) as u32);
            assert(power(BASE as nat, 0) == 1);
            assert(power(BASE as nat, 1) == BASE);
            assert(low.last() as nat * 1 == n % BASE);
            assert(value_of(low) == n % BASE);
        }
        Natural { limbs }
    }

    /// This number times `factor`.
    pub fn scaled(&self, factor: u32) -> (number: Natural)
        ensures
            number@ == self@ * factor as nat,
    {
        let mut limbs: Vec<u32> = Vec::new();
        let mut carry: u64 = 0;
        let mut i: usize = 0;
        assert(self.limbs@.take(0) =~= Seq::empty());
        assert(limbs@ =~= Seq::empty());
        assert(0 * power(BASE as nat, 0) == 0);
        assert(0 * factor as nat == 0);
        while i < self.limbs.len()
            invariant
                i == limbs.len(),
                i <= self.limbs.len(),
                carry < BASE,
                value_of(limbs@) + carry as nat * power(BASE as nat, i as nat) == value_of(
                    self.limbs@.take(i as int),
                ) * factor as nat,
            decreases self.limbs.len() - i,
        {
            let limb: u32 = self.limbs[i];
            assert(limb * factor <= 0xffff_ffff * 0xffff_ffff) by (nonlinear_arith)
                requires
                    limb <= 0xffff_ffff,
                    factor <= 0xffff_ffff,
            ;
            let sum: u64 = limb as u64 * factor as u64 + carry;
            let low: u64 = sum % BASE;
            let high: u64 = sum / BASE;
            let ghost before = limbs@;
            limbs.push(low as u32);
            proof {
                let next = self.limbs@.take(i + 1);
                assert(next.drop_last() =~= self.limbs@.take(i as int));
                assert(next.last() == limb);
                assert(limbs@.drop_last() =~= before);
                let (b, p) = (BASE as nat, power(BASE as nat, i as nat));
                assert(power(b, i as nat + 1) == b * p);
                let (v, w) = (value_of(before), value_of(self.limbs@.take(i as int)));
                let (l, h, c, x, f) = (
                    low as nat,
                    high as nat,
                    carry as nat,
                    limb as nat,
                    factor as nat,
                );
                assert(value_of(limbs@) == v + l * p);
                assert(value_of(next) == w + x * p);
                assert(x * f + c == b * h + l);
                assert((v + l * p) + h * (b * p) == (w + x * p) * f) by (nonlinear_arith)
                    requires
                        v + c * p == w * f,
                        x * f + c == b * h + l,
                ;
            }
            carry = high;
            i += 1;
        }
        assert(self.limbs@.take(i as int) =~= self.limbs@);
        let ghost before = limbs@;
        limbs.push(carry as u32);
        proof {
            assert(limbs@.drop_last() =~= before);
            assert(limbs@.last() == carry as u32);
        }
        Natural { limbs }
    }

    fn limb(&self, i: usize) -> (limb: u32)
        ensures
            limb == if i < self.limbs@.len() {
                self.limbs@[i as int]
            } else {
                0
            },
    {
        if i < self.limbs.len() {
            self.limbs[i]
        } else {
            0
        }
    }

    /// Whether this number is at most `other`.
    pub fn is_at_most(&self, other: &Natural) -> (found: bool)
        ensures
            found == (self@ <= other@),
    {
        let most: usize = if self.limbs.len() < other.limbs.len() {
            other.limbs.len()
        } else {
            self.limbs.len()
        };
        let mut found = true;
        let mut i: usize = 0;
        proof {
            assert(first_limbs(self.limbs@, 0) =~= Seq::empty());
            assert(first_limbs(other.limbs@, 0) =~= Seq::empty());
        }
        while i < most
            invariant
                i <= most,
                self.limbs.len() <= most,
                other.limbs.len() <= most,
                found == (value_of(first_limbs(self.limbs@, i as int)) <= value_of(
                    first_limbs(other.limbs@, i as int),
                )),
            decreases most - i,
        {
            let a: u32 = self.limb(i);
            let b: u32 = other.limb(i);
            proof {
                let (s, t) = (
                    first_limbs(self.limbs@, i as int),
                    first_limbs(other.limbs@, i as int),
                );
                let (u, v) = (
                    first_limbs(self.limbs@, i + 1),
                    first_limbs(other.limbs@, i + 1),
                );
                assert(u.drop_last() =~= s);
                assert(v.drop_last() =~= t);
                assert(u.last() == a && v.last() == b);
                lemma_value_is_below(s);
                lemma_value_is_below(t);
                let p = power(BASE as nat, i as nat);
                let (x, y) = (value_of(s), value_of(t));
                let (c, d) = (a as nat, b as nat);
                assert(c < d ==> x + c * p <= y + d * p) by (nonlinear_arith)
                    requires
                        x < p,
                ;
                assert(c > d ==> x + c * p > y + d * p) by (nonlinear_arith)
                    requires
                        y < p,
                ;
            }
            if a < b {
                found = true;
            } else if a > b {
                found = false;
            }
            i += 1;
        }
        proof {
            lemma_first_limbs(self.limbs@, most as int);
            lemma_first_limbs(other.limbs@, most as int);
        }
        found
    }
}

/// The first `n` limbs, with zeros where there are no more.
spec fn first_limbs(limbs: Seq<u32>, n: int) -> Seq<u32> {
    Seq::new(
        n as nat,
        |i: int|
            if i < limbs.len() {
                limbs[i]
            } else {
                0
            },
    )
}

proof fn lemma_first_limbs(limbs: Seq<u32>, n: int)
    requires
        n >= limbs.len(),
    ensures
        value_of(first_limbs(limbs, n)) == value_of(limbs),
    decreases n,
{
    if n == limbs.len() {
        assert(first_limbs(limbs, n) =~= limbs);
    } else {
        lemma_first_limbs(limbs, n - 1);
        assert(first_limbs(limbs, n).drop_last() =~= first_limbs(limbs, n - 1));
        let p = power(BASE as nat, (n - 1) as nat);
        assert(first_limbs(limbs, n).last() == 0);
        assert(0 * p == 0);
    }
}

/// `n` times two to the power of `e`.
pub fn shifted_number(n: u64, e: u64) -> (number: Natural)
    ensures
        number@ == n * power(2, e as nat),
{
    let mut number = Natural::from_number(n);
    let mut i: u64 = 0;
    assert(power(2, 0) == 1);
    assert(n * 1 == n);
    while i < e
        invariant
            i <= e,
            number@ == n * power(2, i as nat),
        decreases e - i,
    {
        let ghost p = power(2, i as nat);
        number = number.scaled(2);
        proof {
            assert(power(2, i as nat + 1) == 2 * p);
            assert(n * p * 2 == n * (2 * p)) by (nonlinear_arith);
        }
        i += 1;
    }
    number
}

} // verus!
