//! Seconds as a command line gives them, to the nanosecond.

use vstd::arithmetic::power2::{
    lemma2_to64, lemma2_to64_rest, lemma_pow2_adds, lemma_pow2_pos,
    lemma_pow2_strictly_increases, lemma_pow2_unfold, pow2,
};
use vstd::prelude::*;

verus! {

/// A number of seconds: the bits of the double that a text denotes.
#[derive(Clone, Copy, Debug, PartialEq, Eq, Structural)]
pub struct Seconds {
    pub bits: u64,
}

/// The bits of `86400.0`.
pub const DAY_BITS: u64 = 0x40F5_1800_0000_0000;

/// A day in nanoseconds.
pub const DAY: u64 = 86_400_000_000_000;

/// The whole number nearest to `n / d`, and the even one of the two where both
/// neighbours are as near.
pub open spec fn nearest(n: nat, d: nat) -> nat {
    let whole = n / d;
    let rest = n % d;
    if 2 * rest > d || (2 * rest == d && whole % 2 == 1) {
        whole + 1
    } else {
        whole
    }
}

impl Seconds {
    /// Positive doubles are ordered as their bits are; a set sign bit, an
    /// infinity and every NaN lie above.
    pub open spec fn within_a_day(self) -> bool {
        0 < self.bits <= DAY_BITS
    }

    /// The exponent as it is stored, of a double without a sign.
    pub open spec fn exponent(self) -> nat {
        (self.bits / 0x10_0000_0000_0000) as nat
    }

    /// The significand as a whole number.
    pub open spec fn units(self) -> nat {
        let fraction = (self.bits % 0x10_0000_0000_0000) as nat;
        if self.exponent() == 0 {
            fraction
        } else {
            fraction + 0x10_0000_0000_0000
        }
    }

    /// How often the significand is halved to give the number.
    pub open spec fn halvings(self) -> nat {
        if self.exponent() == 0 {
            1074
        } else {
            (1075 - self.exponent()) as nat
        }
    }

    /// The number in nanoseconds, to the nearest.
    pub open spec fn nanos(self) -> nat {
        nearest(self.units() * 1_000_000_000, pow2(self.halvings()))
    }

    /// The number in nanoseconds, where it is positive and at most a day.
    pub fn span(&self) -> (r: u64)
        requires
            self.within_a_day(),
        ensures
            r == self.nanos(),
            r <= DAY,
    {
        let exponent: u64 = self.bits / 0x10_0000_0000_0000;
        let fraction: u64 = self.bits % 0x10_0000_0000_0000;
        let (units, halvings): (u64, u64) = if exponent == 0 {
            (fraction, 1074)
        } else {
            (fraction + 0x10_0000_0000_0000, 1075 - exponent)
        };
        proof {
            spans_fit_a_day(*self);
        }
        if halvings > 84 {
            proof {
                lemma_tiny(*self);
            }
            return 0;
        }
        let n: u128 = units as u128 * 1_000_000_000;
        let mut d: u128 = 1;
        let mut i: u64 = 0;
        proof {
            lemma2_to64();
        }
        while i < halvings
            invariant
                i <= halvings <= 84,
                d == pow2(i as nat),
                d <= 0x10_0000_0000_0000_0000_0000,
            decreases halvings - i,
        {
            proof {
                lemma_pow2_unfold((i + 1) as nat);
                lemma_small_powers((i + 1) as nat);
            }
            d = d * 2;
            i += 1;
        }
        proof {
            lemma_pow2_pos(halvings as nat);
        }
        let whole: u128 = n / d;
        let rest: u128 = n % d;
        if 2 * rest > d || (2 * rest == d && whole % 2 == 1) {
            (whole + 1) as u64
        } else {
            whole as u64
        }
    }
}

proof fn lemma_small_powers(k: nat)
    requires
        k <= 84,
    ensures
        pow2(k) <= 0x10_0000_0000_0000_0000_0000,
{
    lemma2_to64();
    lemma2_to64_rest();
    lemma_pow2_adds(64, 20);
    if k < 84 {
        lemma_pow2_strictly_increases(k, 84);
    }
}

/// What is halved that often is nearer to nothing than to a nanosecond.
proof fn lemma_tiny(seconds: Seconds)
    requires
        seconds.within_a_day(),
        seconds.halvings() > 84,
    ensures
        seconds.nanos() == 0,
{
    lemma2_to64();
    lemma2_to64_rest();
    lemma_pow2_adds(64, 20);
    lemma_pow2_strictly_increases(84, seconds.halvings());
    let n = seconds.units() * 1_000_000_000;
    let d = pow2(seconds.halvings());
    assert(2 * n < d);
    assert(n / d == 0 && n % d == n) by (nonlinear_arith)
        requires
            0 <= 2 * n < d,
    ;
}

/// A number of seconds up to a day is, to the nearest nanosecond, no more than
/// a day.
pub proof fn spans_fit_a_day(seconds: Seconds)
    requires
        seconds.within_a_day(),
    ensures
        seconds.nanos() <= DAY,
{
    lemma2_to64();
    lemma2_to64_rest();
    let n = seconds.units() * 1_000_000_000;
    let d = pow2(seconds.halvings());
    if seconds.halvings() > 36 {
        if seconds.halvings() > 37 {
            lemma_pow2_strictly_increases(37, seconds.halvings());
        }
        assert(n < 65_536_000_000_000 * 0x20_0000_0000);
        assert(n / d < 65_536_000_000_000) by (nonlinear_arith)
            requires
                n < 65_536_000_000_000 * 0x20_0000_0000,
                d >= 0x20_0000_0000,
        ;
    } else {
        assert(seconds.halvings() == 36);
        assert(n <= 86_400_000_000_000 * d);
        assert(n / d < 86_400_000_000_000 || (n / d == 86_400_000_000_000 && n % d == 0))
            by (nonlinear_arith)
            requires
                n <= 86_400_000_000_000 * d,
                d == 0x10_0000_0000,
        ;
    }
}

/// The nearest whole number is off by a half at most, and where both neighbours
/// are off by a half it is the even one.
pub proof fn the_nearest_is_off_by_a_half_at_most(n: nat, d: nat)
    requires
        d > 0,
    ensures
        2 * (nearest(n, d) * d) <= 2 * n + d,
        2 * n <= 2 * (nearest(n, d) * d) + d,
        2 * (nearest(n, d) * d) == 2 * n + d || 2 * n == 2 * (nearest(n, d) * d) + d ==> nearest(
            n,
            d,
        ) % 2 == 0,
        n % d == 0 ==> nearest(n, d) * d == n,
{
    let whole = n / d;
    let rest = n % d;
    vstd::arithmetic::div_mod::lemma_fundamental_div_mod(n as int, d as int);
    vstd::arithmetic::mul::lemma_mul_is_commutative(whole as int, d as int);
    assert((whole + 1) * d == whole * d + d) by (nonlinear_arith);
    assert(rest < d);
}

} // verus!
