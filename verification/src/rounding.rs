//! Correctly rounded arithmetic on double-precision numbers.
//!
//! Every finite number is a whole multiple of the smallest step between numbers, so
//! the sum of two is a whole number of steps, and a quotient of two a quotient of
//! whole numbers. The machine gives the number nearest to that, halves to the one
//! with an even significand; here the encoding of that number is computed from the
//! encodings of the operands.

use crate::number::{Real, FRACTION_WEIGHT, INFINITE_MAGNITUDE, SIGN_WEIGHT};
use vstd::arithmetic::div_mod::{
    lemma_fundamental_div_mod, lemma_fundamental_div_mod_converse, lemma_small_mod,
};
use vstd::arithmetic::power2::{
    lemma2_to64, lemma_pow2_adds, lemma_pow2_pos, lemma_pow2_strictly_increases, pow2,
};
use vstd::prelude::*;

verus! {

/// One more than the largest significand.
pub const SIGNIFICAND_BOUND: u64 = 0x20_0000_0000_0000;

/// What stands for no number.
pub const UNDEFINED: u64 = 0x7ff8_0000_0000_0000;

/// A quotient of whole numbers, rounded to the nearest whole one, halves to even.
pub open spec fn rounded_quotient(n: nat, d: nat) -> nat {
    if 2 * (n % d) > d || (2 * (n % d) == d && (n / d) % 2 == 1) {
        n / d + 1
    } else {
        n / d
    }
}

/// How often the smallest step has to be doubled until a quotient of whole numbers,
/// taken as a number of smallest steps, is less than a significand of the doubled
/// ones.
pub open spec fn doublings(n: nat, d: nat) -> nat
    decreases n - d,
{
    if d == 0 || n < d * SIGNIFICAND_BOUND {
        0
    } else {
        1 + doublings(n, 2 * d)
    }
}

/// The number nearest to a quotient of whole numbers, taken as a number of smallest
/// steps; halves go to the even significand, and what is too large is infinite.
///
/// The significand and the exponent stand side by side in an encoding, so rounding up
/// to the next power of two carries into the exponent by itself.
pub open spec fn nearest(n: nat, d: nat) -> Real {
    let k = doublings(n, d);
    let bits = k * FRACTION_WEIGHT + rounded_quotient(n, d * pow2(k));
    Real {
        bits: if bits < INFINITE_MAGNITUDE {
            bits as u64
        } else {
            INFINITE_MAGNITUDE
        },
    }
}

impl Real {
    /// The absolute value of a finite number, counted in the smallest step between
    /// numbers.
    pub open spec fn steps(self) -> nat {
        self.significand() * pow2((self.scale() + 1074) as nat)
    }

    /// A finite number, counted in the smallest step between numbers.
    pub open spec fn signed_steps(self) -> int {
        if self.is_negative() {
            -(self.steps() as int)
        } else {
            self.steps() as int
        }
    }

    /// The distance from a finite number to the next one away from zero, in such
    /// steps.
    pub open spec fn gap(self) -> nat {
        pow2((self.scale() + 1074) as nat)
    }

    /// The number, or its opposite.
    pub open spec fn turned(self, negative: bool) -> Real {
        if negative {
            self.opposite()
        } else {
            self
        }
    }

    /// A whole number as a double.
    pub open spec fn from_count(n: nat) -> Real {
        nearest(n * pow2(1074), 1)
    }

    /// A whole number, with its sign, as a double.
    pub open spec fn from_whole(n: int) -> Real {
        if n < 0 {
            Real::from_count((-n) as nat).opposite()
        } else {
            Real::from_count(n as nat)
        }
    }

    /// The sum of two numbers.
    #[verifier::opaque]
    pub open spec fn plus(self, other: Real) -> Real {
        if self.not_a_number() || other.not_a_number() {
            Real { bits: UNDEFINED }
        } else if !self.finite() {
            if !other.finite() && self.is_negative() != other.is_negative() {
                Real { bits: UNDEFINED }
            } else {
                self
            }
        } else if !other.finite() {
            other
        } else {
            let total = self.signed_steps() + other.signed_steps();
            if total == 0 {
                (Real { bits: 0 }).turned(self.is_negative() && other.is_negative())
            } else if total < 0 {
                nearest((-total) as nat, 1).opposite()
            } else {
                nearest(total as nat, 1)
            }
        }
    }

    /// The difference of two numbers.
    pub open spec fn minus(self, other: Real) -> Real {
        self.plus(other.opposite())
    }

    /// The quotient of two numbers.
    #[verifier::opaque]
    pub open spec fn over(self, other: Real) -> Real {
        let negative = self.is_negative() != other.is_negative();
        if self.not_a_number() || other.not_a_number() {
            Real { bits: UNDEFINED }
        } else if !self.finite() {
            if !other.finite() {
                Real { bits: UNDEFINED }
            } else {
                (Real { bits: INFINITE_MAGNITUDE }).turned(negative)
            }
        } else if !other.finite() {
            (Real { bits: 0 }).turned(negative)
        } else if other.steps() == 0 {
            if self.steps() == 0 {
                Real { bits: UNDEFINED }
            } else {
                (Real { bits: INFINITE_MAGNITUDE }).turned(negative)
            }
        } else {
            nearest(self.steps() * pow2(1074), other.steps()).turned(negative)
        }
    }

    /// The product of two numbers.
    #[verifier::opaque]
    pub open spec fn times(self, other: Real) -> Real {
        let negative = self.is_negative() != other.is_negative();
        if self.not_a_number() || other.not_a_number() {
            Real { bits: UNDEFINED }
        } else if !self.finite() || !other.finite() {
            if (self.finite() && self.steps() == 0) || (other.finite() && other.steps() == 0) {
                Real { bits: UNDEFINED }
            } else {
                (Real { bits: INFINITE_MAGNITUDE }).turned(negative)
            }
        } else {
            nearest(self.steps() * other.steps(), pow2(1074)).turned(negative)
        }
    }
}

proof fn lemma_rounded_quotient_scales(n: nat, d: nat, c: nat)
    requires
        d > 0,
        c > 0,
    ensures
        rounded_quotient(c * n, c * d) == rounded_quotient(n, d),
{
    let q = n / d;
    let r = n % d;
    lemma_fundamental_div_mod(n as int, d as int);
    assert(c * n == q * (c * d) + c * r) by (nonlinear_arith)
        requires
            n == d * q + r,
    ;
    assert(0 <= c * r < c * d) by (nonlinear_arith)
        requires
            0 <= r < d,
            c > 0,
    ;
    assert(c * d != 0);
    lemma_fundamental_div_mod_converse((c * n) as int, (c * d) as int, q as int, (c * r) as int);
    assert((c * n) / (c * d) == q && (c * n) % (c * d) == c * r);
    assert(2 * (c * r) > c * d <==> 2 * r > d) by (nonlinear_arith)
        requires
            c > 0,
    ;
    assert(2 * (c * r) == c * d <==> 2 * r == d) by (nonlinear_arith)
        requires
            c > 0,
    ;
}

/// How far the doublings reach, and that one fewer does not.
proof fn lemma_doublings_reach(n: nat, d: nat)
    requires
        d > 0,
    ensures
        n < (d * pow2(doublings(n, d))) * SIGNIFICAND_BOUND,
        doublings(n, d) > 0 ==> n >= (d * pow2((doublings(n, d) - 1) as nat)) * SIGNIFICAND_BOUND,
    decreases n - d,
{
    lemma2_to64();
    assert(d * 1 == d) by (nonlinear_arith);
    if n >= d * SIGNIFICAND_BOUND {
        lemma_doublings_reach(n, 2 * d);
        let k = doublings(n, 2 * d);
        lemma_pow2_adds(1, k);
        assert((2 * d) * pow2(k) == d * (2 * pow2(k))) by (nonlinear_arith);
        if k > 0 {
            lemma_pow2_adds(1, (k - 1) as nat);
            assert((2 * d) * pow2((k - 1) as nat) == d * (2 * pow2((k - 1) as nat)))
                by (nonlinear_arith);
        }
    }
}

proof fn lemma_doublings_are(n: nat, d: nat, k: nat)
    requires
        d > 0,
        n < (d * pow2(k)) * SIGNIFICAND_BOUND,
        k == 0 || n >= (d * pow2((k - 1) as nat)) * SIGNIFICAND_BOUND,
    ensures
        doublings(n, d) == k,
    decreases k,
{
    lemma2_to64();
    assert(d * 1 == d) by (nonlinear_arith);
    if k > 0 {
        lemma_pow2_pos((k - 1) as nat);
        assert(d * pow2((k - 1) as nat) >= d) by (nonlinear_arith)
            requires
                pow2((k - 1) as nat) >= 1,
        ;
        lemma_pow2_adds(1, (k - 1) as nat);
        assert((2 * d) * pow2((k - 1) as nat) == d * (2 * pow2((k - 1) as nat))) by (nonlinear_arith);
        if k > 1 {
            lemma_pow2_adds(1, (k - 2) as nat);
            assert((2 * d) * pow2((k - 2) as nat) == d * (2 * pow2((k - 2) as nat)))
                by (nonlinear_arith);
        }
        lemma_doublings_are(n, 2 * d, (k - 1) as nat);
    }
}

/// A quotient may be expanded: the nearest number is that of the fraction, not of how
/// it is written.
pub proof fn law_nearest_is_of_the_fraction(n: nat, d: nat, other_n: nat, other_d: nat)
    requires
        d > 0,
        other_d > 0,
        n * other_d == other_n * d,
    ensures
        nearest(n, d) == nearest(other_n, other_d),
{
    lemma_nearest_scales(n, d, other_d);
    lemma_nearest_scales(other_n, other_d, d);
    assert(other_d * n == n * other_d && d * other_n == other_n * d && other_d * d == d * other_d)
        by (nonlinear_arith);
}

proof fn lemma_nearest_scales(n: nat, d: nat, c: nat)
    requires
        d > 0,
        c > 0,
    ensures
        nearest(c * n, c * d) == nearest(n, d),
{
    let k = doublings(n, d);
    let unit = d * pow2(k);
    lemma_doublings_reach(n, d);
    lemma_pow2_pos(k);
    assert(c * d > 0 && unit > 0) by (nonlinear_arith)
        requires
            c > 0,
            d > 0,
            unit == d * pow2(k),
            pow2(k) > 0,
    ;
    assert((c * d) * pow2(k) == c * unit) by (nonlinear_arith)
        requires
            unit == d * pow2(k),
    ;
    assert(c * n < (c * unit) * SIGNIFICAND_BOUND) by (nonlinear_arith)
        requires
            n < unit * SIGNIFICAND_BOUND,
            c > 0,
    ;
    if k > 0 {
        let half = d * pow2((k - 1) as nat);
        assert((c * d) * pow2((k - 1) as nat) == c * half) by (nonlinear_arith)
            requires
                half == d * pow2((k - 1) as nat),
        ;
        assert(c * n >= (c * half) * SIGNIFICAND_BOUND) by (nonlinear_arith)
            requires
                n >= half * SIGNIFICAND_BOUND,
                c > 0,
        ;
    }
    lemma_doublings_are(c * n, c * d, k);
    lemma_rounded_quotient_scales(n, unit, c);
}

/// A wide quotient, rounded to the nearest whole number, halves to even.
fn divide_rounding(n: u128, d: u128) -> (r: u128)
    requires
        0 < d < 0x1000_0000_0000_0000_0000_0000_0000_0000,
        n < 0x1000_0000_0000_0000_0000_0000_0000_0000,
    ensures
        r == rounded_quotient(n as nat, d as nat),
{
    let quotient: u128 = n / d;
    let rest: u128 = n % d;
    proof {
        vstd::arithmetic::div_mod::lemma_div_is_ordered_by_denominator(n as int, 1, d as int);
    }
    if 2 * rest > d || (2 * rest == d && quotient % 2 == 1) {
        quotient + 1
    } else {
        quotient
    }
}

/// The numerator of a fraction that is multiplied by a power of two.
spec fn scaled_above(n: nat, e: int) -> nat {
    if e >= 0 {
        n * pow2(e as nat)
    } else {
        n
    }
}

/// The denominator of a fraction that is multiplied by a power of two.
spec fn scaled_below(d: nat, e: int) -> nat {
    if e >= 0 {
        d
    } else {
        d * pow2((-e) as nat)
    }
}

proof fn lemma_pow2_bound(k: nat, den: nat, d: nat)
    requires
        d > 0,
        den == d * pow2(k),
        den < 0x8_0000_0000_0000_0000,
    ensures
        k < 67,
{
    if k >= 67 {
        lemma2_to64();
        lemma_pow2_adds(64, 3);
        assert(pow2(67) == 0x8_0000_0000_0000_0000);
        if k > 67 {
            lemma_pow2_strictly_increases(67, k);
        }
        assert(d * pow2(k) >= pow2(k)) by (nonlinear_arith)
            requires
                d >= 1,
        ;
    }
}

proof fn lemma_quotient_bound(n: nat, d: nat)
    requires
        d > 0,
        n < d * SIGNIFICAND_BOUND,
    ensures
        rounded_quotient(n, d) <= SIGNIFICAND_BOUND,
{
    lemma_fundamental_div_mod(n as int, d as int);
    let q = n / d;
    assert(q < SIGNIFICAND_BOUND) by (nonlinear_arith)
        requires
            d * q <= n,
            n < d * SIGNIFICAND_BOUND,
            d > 0,
    ;
}

/// The encoding of a significand after some doublings of the step.
fn encode(k: u64, q: u128) -> (r: Real)
    requires
        k <= 4080,
        q <= SIGNIFICAND_BOUND,
    ensures
        r.bits == if k * FRACTION_WEIGHT + q < INFINITE_MAGNITUDE {
            (k * FRACTION_WEIGHT + q) as u64
        } else {
            INFINITE_MAGNITUDE
        },
{
    let bits: u64 = k * FRACTION_WEIGHT + q as u64;
    if bits < INFINITE_MAGNITUDE {
        Real { bits }
    } else {
        Real { bits: INFINITE_MAGNITUDE }
    }
}

/// The number nearest to a fraction times a power of two, in smallest steps.
fn round_scaled(n: u128, d: u128, e: i64) -> (r: Real)
    requires
        0 < d < 0x40_0000_0000_0000,
        n < 0x100_0000_0000_0000_0000_0000_0000_0000,
        -4000 < e < 4000,
    ensures
        r == nearest(scaled_above(n as nat, e as int), scaled_below(d as nat, e as int)),
{
    let bound: u128 = SIGNIFICAND_BOUND as u128;
    let mut m: u128 = n;
    let mut s: i64 = e;
    proof {
        lemma2_to64();
    }
    while s > 0 && m < d * bound
        invariant
            bound == SIGNIFICAND_BOUND,
            0 < d < 0x40_0000_0000_0000,
            m < 0x100_0000_0000_0000_0000_0000_0000_0000,
            s <= e < 4000,
            e < 0 ==> s == e && m == n,
            e >= 0 ==> s >= 0 && m * pow2(s as nat) == n * pow2(e as nat),
        decreases s,
    {
        assert(s >= 1);
        proof {
            lemma_pow2_adds(1, (s - 1) as nat);
            lemma2_to64();
            assert(m * (2 * pow2((s - 1) as nat)) == (2 * m) * pow2((s - 1) as nat)) by (nonlinear_arith);
        }
        m = 2 * m;
        s = s - 1;
    }
    let mut den: u128 = d;
    let mut k: u64 = 0;
    assert(d * 1 == d) by (nonlinear_arith);
    while m >= den * bound
        invariant
            bound == SIGNIFICAND_BOUND,
            0 < d,
            m < 0x100_0000_0000_0000_0000_0000_0000_0000,
            0 < den < 0x10_0000_0000_0000_0000,
            den == d * pow2(k as nat),
            k <= 67,
            k > 0 ==> m >= (d * pow2((k - 1) as nat)) * SIGNIFICAND_BOUND,
        decreases m - den,
    {
        proof {
            lemma_pow2_bound(k as nat, den as nat, d as nat);
            lemma_pow2_adds(1, k as nat);
            lemma2_to64();
            assert(2 * (d * pow2(k as nat)) == d * (2 * pow2(k as nat))) by (nonlinear_arith);
        }
        den = 2 * den;
        k = k + 1;
    }
    if s >= 0 {
        let q: u128 = divide_rounding(m, den);
        proof {
            lemma_quotient_bound(m as nat, den as nat);
            lemma_scaled_up(m as nat, d as nat, k as nat, s as nat);
            assert(scaled_above(n as nat, e as int) == m * pow2(s as nat));
        }
        return encode(s as u64 + k, q);
    }
    let rest: u64 = (-s) as u64;
    if k >= rest {
        let q: u128 = divide_rounding(m, den);
        proof {
            lemma_quotient_bound(m as nat, den as nat);
            lemma_scaled_down(m as nat, d as nat, k as nat, rest as nat);
        }
        return encode(k - rest, q);
    }
    let ghost whole = d * pow2(rest as nat);
    let mut left: u64 = rest - k;
    proof {
        lemma_pow2_adds(k as nat, left as nat);
        lemma_pow2_pos(left as nat);
        assert(den * pow2(left as nat) == whole) by (nonlinear_arith)
            requires
                den == d * pow2(k as nat),
                whole == d * (pow2(k as nat) * pow2(left as nat)),
        ;
        assert(m < whole * SIGNIFICAND_BOUND) by (nonlinear_arith)
            requires
                m < den * SIGNIFICAND_BOUND,
                whole == den * pow2(left as nat),
                pow2(left as nat) >= 1,
        ;
        assert(doublings(m as nat, whole as nat) == 0);
        assert(whole * 1 == whole);
        lemma_quotient_bound(m as nat, whole as nat);
    }
    while left > 0 && den <= 2 * m
        invariant
            m < 0x100_0000_0000_0000_0000_0000_0000_0000,
            0 < den <= 0x400_0000_0000_0000_0000_0000_0000_0000,
            den * pow2(left as nat) == whole,
        decreases left,
    {
        proof {
            lemma_pow2_adds(1, (left - 1) as nat);
            lemma2_to64();
            assert(den * (2 * pow2((left - 1) as nat)) == (2 * den) * pow2((left - 1) as nat))
                by (nonlinear_arith);
        }
        den = 2 * den;
        left = left - 1;
    }
    let q: u128 = if left > 0 {
        proof {
            lemma_pow2_pos(left as nat);
            assert(2 * m < whole) by (nonlinear_arith)
                requires
                    2 * m < den,
                    whole == den * pow2(left as nat),
                    pow2(left as nat) >= 1,
            ;
            lemma_small_mod(m as nat, whole as nat);
            vstd::arithmetic::div_mod::lemma_basic_div(m as int, whole as int);
        }
        0
    } else {
        proof {
            lemma2_to64();
            assert(den * 1 == den);
        }
        divide_rounding(m, den)
    };
    assert(pow2(0) == 1) by {
        lemma2_to64();
    }
    encode(0, q)
}

proof fn lemma_scaled_up(m: nat, d: nat, k: nat, s: nat)
    requires
        d > 0,
        m < (d * pow2(k)) * SIGNIFICAND_BOUND,
        k > 0 ==> m >= (d * pow2((k - 1) as nat)) * SIGNIFICAND_BOUND,
        s > 0 ==> k > 0,
    ensures
        doublings(m * pow2(s), d) == s + k,
        rounded_quotient(m * pow2(s), d * pow2(s + k)) == rounded_quotient(m, d * pow2(k)),
{
    let c = pow2(s);
    let unit = d * pow2(k);
    lemma_pow2_pos(s);
    lemma_pow2_pos(k);
    lemma_pow2_adds(s, k);
    assert(unit > 0) by (nonlinear_arith)
        requires
            unit == d * pow2(k),
            d > 0,
            pow2(k) > 0,
    ;
    assert(d * (c * pow2(k)) == c * unit && m * c == c * m) by (nonlinear_arith)
        requires
            unit == d * pow2(k),
    ;
    assert(c * m < (c * unit) * SIGNIFICAND_BOUND) by (nonlinear_arith)
        requires
            m < unit * SIGNIFICAND_BOUND,
            c > 0,
    ;
    if k > 0 {
        let half = d * pow2((k - 1) as nat);
        lemma_pow2_adds(s, (k - 1) as nat);
        assert(d * (c * pow2((k - 1) as nat)) == c * half) by (nonlinear_arith)
            requires
                half == d * pow2((k - 1) as nat),
        ;
        assert(c * m >= (c * half) * SIGNIFICAND_BOUND) by (nonlinear_arith)
            requires
                m >= half * SIGNIFICAND_BOUND,
                c > 0,
        ;
    }
    lemma_doublings_are(m * c, d, s + k);
    lemma_rounded_quotient_scales(m, unit, c);
}

proof fn lemma_scaled_down(m: nat, d: nat, k: nat, rest: nat)
    requires
        d > 0,
        rest <= k,
        m < (d * pow2(k)) * SIGNIFICAND_BOUND,
        k > 0 ==> m >= (d * pow2((k - 1) as nat)) * SIGNIFICAND_BOUND,
    ensures
        doublings(m, d * pow2(rest)) == k - rest,
        (d * pow2(rest)) * pow2((k - rest) as nat) == d * pow2(k),
        d * pow2(rest) > 0,
{
    let left = (k - rest) as nat;
    let whole = d * pow2(rest);
    lemma_pow2_pos(rest);
    lemma_pow2_adds(rest, left);
    assert(whole > 0) by (nonlinear_arith)
        requires
            whole == d * pow2(rest),
            d > 0,
            pow2(rest) > 0,
    ;
    assert(whole * pow2(left) == d * (pow2(rest) * pow2(left))) by (nonlinear_arith)
        requires
            whole == d * pow2(rest),
    ;
    if left > 0 {
        lemma_pow2_adds(rest, (left - 1) as nat);
        assert(whole * pow2((left - 1) as nat) == d * (pow2(rest) * pow2((left - 1) as nat)))
            by (nonlinear_arith)
            requires
                whole == d * pow2(rest),
        ;
    }
    lemma_doublings_are(m, whole, left);
}

/// A number of percent as a fraction of the whole, held to the range from zero to
/// one.
pub open spec fn fraction_of_hundred(percent: Real) -> Real {
    percent.over(Real { bits: 0x4059_0000_0000_0000 }).clamped(
        Real { bits: 0 },
        Real { bits: 0x3ff0_0000_0000_0000 },
    )
}

impl Real {
    /// A whole number as a double.
    pub fn of_count(n: u64) -> (r: Real)
        ensures
            r == Real::from_count(n as nat),
    {
        round_scaled(n as u128, 1, 1074)
    }

    /// A whole number, with its sign, as a double.
    pub fn of_whole(n: i32) -> (r: Real)
        ensures
            r == Real::from_whole(n as int),
    {
        if n < 0 {
            Real::of_count((-(n as i64)) as u64).neg()
        } else {
            Real::of_count(n as u64)
        }
    }

    /// `self / other`.
    pub fn divide(self, other: Real) -> (r: Real)
        ensures
            r == self.over(other),
    {
        proof {
            reveal(Real::over);
        }
        let negative = (self.bits >= SIGN_WEIGHT) != (other.bits >= SIGN_WEIGHT);
        if self.is_nan() || other.is_nan() {
            return Real { bits: UNDEFINED };
        }
        let (above, top) = self.parts();
        let (below, bottom) = other.parts();
        let magnitude = if !self.is_finite() {
            if !other.is_finite() {
                return Real { bits: UNDEFINED };
            }
            Real::infinity()
        } else if !other.is_finite() {
            Real::zero()
        } else {
            proof {
                lemma_zero_steps(self);
                lemma_zero_steps(other);
            }
            if below == 0 {
                if above == 0 {
                    return Real { bits: UNDEFINED };
                }
                Real::infinity()
            } else {
                let r = round_scaled(above as u128, below as u128, top - bottom + 1074);
                proof {
                    lemma_quotient_scales(self, other);
                }
                r
            }
        };
        if negative {
            magnitude.neg()
        } else {
            magnitude
        }
    }
}

impl Real {
    /// `self * other`.
    pub fn multiply(self, other: Real) -> (r: Real)
        ensures
            r == self.times(other),
    {
        proof {
            reveal(Real::times);
        }
        let negative = (self.bits >= SIGN_WEIGHT) != (other.bits >= SIGN_WEIGHT);
        if self.is_nan() || other.is_nan() {
            return Real { bits: UNDEFINED };
        }
        let (one, first) = self.parts();
        let (two, second) = other.parts();
        proof {
            lemma_zero_steps(self);
            lemma_zero_steps(other);
        }
        let magnitude = if !self.is_finite() || !other.is_finite() {
            if (self.is_finite() && one == 0) || (other.is_finite() && two == 0) {
                return Real { bits: UNDEFINED };
            }
            Real::infinity()
        } else {
            assert(0 <= one * two <= 0x20_0000_0000_0000 * 0x20_0000_0000_0000) by (nonlinear_arith)
                requires
                    0 <= one < 0x20_0000_0000_0000,
                    0 <= two < 0x20_0000_0000_0000,
            ;
            let product: u128 = (one as u128) * (two as u128);
            proof {
                lemma_product_scales(self, other);
            }
            round_scaled(product, 1, first + second + 1074)
        };
        if negative {
            magnitude.neg()
        } else {
            magnitude
        }
    }
}

proof fn lemma_product_scales(x: Real, y: Real)
    requires
        x.finite(),
        y.finite(),
    ensures
        ({
            let e = x.scale() + y.scale() + 1074;
            nearest(x.steps() * y.steps(), pow2(1074)) == nearest(
                scaled_above(x.significand() * y.significand(), e),
                scaled_below(1, e),
            )
        }),
{
    let e = x.scale() + y.scale() + 1074;
    let sx = x.significand();
    let sy = y.significand();
    let px = pow2((x.scale() + 1074) as nat);
    let py = pow2((y.scale() + 1074) as nat);
    let one = pow2(1074);
    let above = (sx * px) * (sy * py);
    lemma_pow2_pos(1074);
    lemma_pow2_adds((x.scale() + 1074) as nat, (y.scale() + 1074) as nat);
    if e >= 0 {
        let pe = pow2(e as nat);
        lemma_pow2_adds(e as nat, 1074);
        assert(px * py == pe * one);
        assert(above * 1 == ((sx * sy) * pe) * one) by (nonlinear_arith)
            requires
                above == (sx * px) * (sy * py),
                px * py == pe * one,
        ;
        law_nearest_is_of_the_fraction(above, one, (sx * sy) * pe, 1);
    } else {
        let pe = pow2((-e) as nat);
        lemma_pow2_pos((-e) as nat);
        lemma_pow2_adds((x.scale() + y.scale() + 2148) as nat, (-e) as nat);
        assert((px * py) * pe == one);
        assert(above * (1 * pe) == (sx * sy) * one) by (nonlinear_arith)
            requires
                above == (sx * px) * (sy * py),
                (px * py) * pe == one,
        ;
        law_nearest_is_of_the_fraction(above, one, sx * sy, 1 * pe);
    }
}

pub(crate) proof fn lemma_zero_steps(x: Real)
    ensures
        x.steps() == 0 <==> x.significand() == 0,
{
    lemma_pow2_pos((x.scale() + 1074) as nat);
    assert(x.steps() == 0 <==> x.significand() == 0) by (nonlinear_arith)
        requires
            x.steps() == x.significand() * pow2((x.scale() + 1074) as nat),
            pow2((x.scale() + 1074) as nat) > 0,
    ;
}

proof fn lemma_quotient_scales(x: Real, y: Real)
    requires
        x.finite(),
        y.finite(),
        y.significand() > 0,
    ensures
        ({
            let e = x.scale() - y.scale() + 1074;
            nearest(x.steps() * pow2(1074), y.steps()) == nearest(
                scaled_above(x.significand(), e),
                scaled_below(y.significand(), e),
            )
        }),
{
    let e = x.scale() - y.scale() + 1074;
    let sx = x.significand();
    let sy = y.significand();
    let px = pow2((x.scale() + 1074) as nat);
    let py = pow2((y.scale() + 1074) as nat);
    let one = pow2(1074);
    lemma_zero_steps(y);
    lemma_pow2_adds((x.scale() + 1074) as nat, 1074);
    if e >= 0 {
        let pe = pow2(e as nat);
        lemma_pow2_adds((y.scale() + 1074) as nat, e as nat);
        assert(px * one == py * pe);
        assert((sx * px) * one * sy == (sx * pe) * (sy * py)) by (nonlinear_arith)
            requires
                px * one == py * pe,
        ;
        law_nearest_is_of_the_fraction((sx * px) * one, sy * py, sx * pe, sy);
    } else {
        let pe = pow2((-e) as nat);
        lemma_pow2_adds((x.scale() + 2148) as nat, (-e) as nat);
        lemma_pow2_pos((-e) as nat);
        assert((px * one) * pe == py);
        assert((sx * px) * one * (sy * pe) == sx * (sy * py)) by (nonlinear_arith)
            requires
                (px * one) * pe == py,
        ;
        assert(sy * pe > 0) by (nonlinear_arith)
            requires
                sy > 0,
                pe > 0,
        ;
        law_nearest_is_of_the_fraction((sx * px) * one, sy * py, sx, sy * pe);
    }
}

/// A number of percent as a fraction of the whole.
pub fn from_percent(percent: Real) -> (r: Real)
    ensures
        r == fraction_of_hundred(percent),
{
    percent.divide(Real { bits: 0x4059_0000_0000_0000 }).clamp(Real::zero(), Real::one())
}

/// A fraction of a hundred lies between zero and one.
pub proof fn law_fractions_lie_between_zero_and_one(percent: Real)
    requires
        !percent.not_a_number(),
    ensures
        (Real { bits: 0 }).at_most(fraction_of_hundred(percent)),
        fraction_of_hundred(percent).at_most(Real { bits: 0x3ff0_0000_0000_0000 }),
{
    reveal(Real::over);
    let hundred = Real { bits: 0x4059_0000_0000_0000 };
    lemma_zero_steps(hundred);
    assert(hundred.steps() != 0);
}

/// A number is not moved by what is less than a quarter of its distance to the next.
proof fn lemma_absorbs(s: nat, e: nat, n: nat)
    requires
        FRACTION_WEIGHT <= s < SIGNIFICAND_BOUND,
        e >= 2,
        4 * n < (4 * s + 1) * pow2(e),
        4 * n > (4 * s - 1) * pow2(e),
    ensures
        nearest(n, 1).bits == if e * FRACTION_WEIGHT + s < INFINITE_MAGNITUDE {
            (e * FRACTION_WEIGHT + s) as u64
        } else {
            INFINITE_MAGNITUDE
        },
{
    let unit = pow2(e);
    lemma_pow2_pos(e);
    assert(1 * unit == unit);
    assert(n < unit * SIGNIFICAND_BOUND) by (nonlinear_arith)
        requires
            4 * n < (4 * s + 1) * unit,
            s + 1 <= SIGNIFICAND_BOUND,
            unit > 0,
    ;
    let half = pow2((e - 1) as nat);
    lemma_pow2_adds(1, (e - 1) as nat);
    lemma2_to64();
    lemma_pow2_pos((e - 1) as nat);
    assert(unit == 2 * half);
    assert(1 * half == half);
    if n >= half * SIGNIFICAND_BOUND {
        lemma_doublings_are(n, 1, e);
        lemma_rounds_to(n, unit, s);
    } else {
        assert(s == FRACTION_WEIGHT) by (nonlinear_arith)
            requires
                n < half * SIGNIFICAND_BOUND,
                unit == 2 * half,
                4 * n > (4 * s - 1) * unit,
                s >= FRACTION_WEIGHT,
                half > 0,
                SIGNIFICAND_BOUND == 2 * FRACTION_WEIGHT,
        ;
        let quarter = pow2((e - 2) as nat);
        lemma_pow2_adds(1, (e - 2) as nat);
        assert(half == 2 * quarter);
        assert(1 * quarter == quarter);
        lemma_pow2_pos((e - 2) as nat);
        assert(n >= quarter * SIGNIFICAND_BOUND) by (nonlinear_arith)
            requires
                4 * n > (4 * s - 1) * unit,
                unit == 4 * quarter,
                s == FRACTION_WEIGHT,
                SIGNIFICAND_BOUND == 2 * FRACTION_WEIGHT,
                FRACTION_WEIGHT == 0x10_0000_0000_0000,
                quarter > 0,
        ;
        lemma_doublings_are(n, 1, (e - 1) as nat);
        assert(2 * n > (2 * (2 * s) - 1) * half) by (nonlinear_arith)
            requires
                4 * n > (4 * s - 1) * unit,
                unit == 2 * half,
                half > 0,
        ;
        assert(2 * n < (2 * (2 * s) + 1) * half) by (nonlinear_arith)
            requires
                n < half * SIGNIFICAND_BOUND,
                SIGNIFICAND_BOUND == 2 * s,
                half > 0,
        ;
        lemma_rounds_to_near(n, half, 2 * s);
    }
}

proof fn lemma_rounds_to(n: nat, d: nat, q: nat)
    requires
        d > 0,
        4 * n < (4 * q + 1) * d,
        4 * n > (4 * q - 1) * d,
    ensures
        rounded_quotient(n, d) == q,
{
    assert(2 * n < (2 * q + 1) * d && 2 * n > (2 * q - 1) * d) by (nonlinear_arith)
        requires
            d > 0,
            4 * n < (4 * q + 1) * d,
            4 * n > (4 * q - 1) * d,
    ;
    lemma_rounds_to_near(n, d, q);
}

proof fn lemma_rounds_to_near(n: nat, d: nat, q: nat)
    requires
        d > 0,
        2 * n < (2 * q + 1) * d,
        2 * n > (2 * q - 1) * d,
    ensures
        rounded_quotient(n, d) == q,
{
    if n >= q * d {
        let r = (n - q * d) as int;
        assert(2 * r < d) by (nonlinear_arith)
            requires
                2 * n < (2 * q + 1) * d,
                r == n - q * d,
        ;
        lemma_fundamental_div_mod_converse(n as int, d as int, q as int, r);
    } else {
        let r = (n - (q - 1) * d) as int;
        assert(0 <= r < d && 2 * r > d) by (nonlinear_arith)
            requires
                2 * n > (2 * q - 1) * d,
                n < q * d,
                r == n - (q - 1) * d,
                d > 0,
        ;
        assert(q >= 1) by (nonlinear_arith)
            requires
                n < q * d,
                n >= 0,
                d > 0,
        ;
        lemma_fundamental_div_mod_converse(n as int, d as int, q - 1, r);
    }
}

/// A sum with a number of far smaller scale is the larger one.
proof fn lemma_far_smaller(x: Real, y: Real)
    requires
        x.finite(),
        y.finite(),
        x.scale() > y.scale() + 60,
    ensures
        x.plus(y) == x,
        y.plus(x) == x,
{
    reveal(Real::plus);
    let e = (x.scale() + 1074) as nat;
    let f = (y.scale() + 1074) as nat;
    let s = x.significand();
    let unit = pow2(e);
    let small = y.steps();
    lemma_pow2_pos(f);
    lemma_pow2_pos((e - f) as nat);
    lemma_pow2_adds(f, (e - f) as nat);
    lemma2_to64();
    lemma_pow2_strictly_increases(60, (e - f) as nat);
    assert(pow2(60) == 0x1000_0000_0000_0000) by {
        vstd::arithmetic::power2::lemma2_to64_rest();
    }
    assert(4 * small < unit) by (nonlinear_arith)
        requires
            small == y.significand() * pow2(f),
            y.significand() < SIGNIFICAND_BOUND,
            SIGNIFICAND_BOUND == 0x20_0000_0000_0000,
            unit == pow2(f) * pow2((e - f) as nat),
            pow2((e - f) as nat) > 0x1000_0000_0000_0000,
            pow2(f) > 0,
    ;
    assert(x.steps() == s * unit);
    assert(FRACTION_WEIGHT <= s);
    assert(x.steps() >= unit) by (nonlinear_arith)
        requires
            x.steps() == s * unit,
            s >= 1,
    ;
    let total = x.signed_steps() + y.signed_steps();
    let n: nat = (if total < 0 {
        -total
    } else {
        total
    }) as nat;
    assert(4 * n < (4 * s + 1) * unit && 4 * n > (4 * s - 1) * unit) by (nonlinear_arith)
        requires
            n <= s * unit + small,
            n >= s * unit - small,
            4 * small < unit,
    ;
    lemma_absorbs(s, e, n);
    assert(x.magnitude() == e * FRACTION_WEIGHT + s);
    assert(total < 0 <==> x.is_negative());
}

impl Real {
    /// `self + other`.
    pub fn sum(self, other: Real) -> (r: Real)
        ensures
            r == self.plus(other),
    {
        proof {
            reveal(Real::plus);
        }
        if self.is_nan() || other.is_nan() {
            return Real { bits: UNDEFINED };
        }
        if !self.is_finite() {
            if !other.is_finite() && (self.bits >= SIGN_WEIGHT) != (other.bits >= SIGN_WEIGHT) {
                return Real { bits: UNDEFINED };
            }
            return self;
        }
        if !other.is_finite() {
            return other;
        }
        let (_, one) = self.parts();
        let (_, two) = other.parts();
        if one >= two {
            self.sum_scaled(other)
        } else {
            other.sum_scaled(self)
        }
    }

    /// `self - other`.
    pub fn subtract(self, other: Real) -> (r: Real)
        ensures
            r == self.minus(other),
    {
        self.sum(other.neg())
    }

    /// The sum of finite numbers, the first not of the smaller scale.
    fn sum_scaled(self, other: Real) -> (r: Real)
        requires
            self.finite(),
            other.finite(),
            self.scale() >= other.scale(),
        ensures
            r == self.plus(other),
            r == other.plus(self),
    {
        proof {
            reveal(Real::plus);
        }
        let (large, top) = self.parts();
        let (small, bottom) = other.parts();
        if top - bottom > 60 {
            proof {
                lemma_far_smaller(self, other);
            }
            return self;
        }
        let apart: u64 = (top - bottom) as u64;
        let unit: u64 = Real::unit(apart);
        proof {
            lemma_unit_bound(apart as nat);
        }
        assert(0 <= large * unit <= 0x20_0000_0000_0000 * 0x1000_0000_0000_0000) by (nonlinear_arith)
            requires
                0 <= large < 0x20_0000_0000_0000,
                0 <= unit <= 0x1000_0000_0000_0000,
        ;
        let wide: i128 = (large as i128) * (unit as i128);
        let one: i128 = if self.bits >= SIGN_WEIGHT {
            -wide
        } else {
            wide
        };
        let two: i128 = if other.bits >= SIGN_WEIGHT {
            -(small as i128)
        } else {
            small as i128
        };
        let total: i128 = one + two;
        let ghost step = pow2((bottom + 1074) as nat);
        proof {
            lemma_pow2_pos((bottom + 1074) as nat);
            lemma_pow2_adds((bottom + 1074) as nat, apart as nat);
            assert(self.steps() == wide * step) by (nonlinear_arith)
                requires
                    self.steps() == large * (step * unit),
                    wide == large * unit,
            ;
            assert(other.steps() == small * step);
            assert((-wide) * step == -(wide * step)) by (nonlinear_arith);
            assert((-(small as int)) * step == -(small * step)) by (nonlinear_arith);
            assert(self.signed_steps() + other.signed_steps() == total * step) by (nonlinear_arith)
                requires
                    self.signed_steps() == one * step,
                    other.signed_steps() == two * step,
                    total == one + two,
            ;
            assert((total == 0 <==> total * step == 0) && (total < 0 <==> total * step < 0))
                by (nonlinear_arith)
                requires
                    step > 0,
            ;
        }
        if total == 0 {
            return if self.bits >= SIGN_WEIGHT && other.bits >= SIGN_WEIGHT {
                Real { bits: SIGN_WEIGHT }
            } else {
                Real::zero()
            };
        }
        if total < 0 {
            assert((-total) * step == -(total * step)) by (nonlinear_arith);
            let n: u128 = (-total) as u128;
            round_scaled(n, 1, bottom + 1074).neg()
        } else {
            round_scaled(total as u128, 1, bottom + 1074)
        }
    }
}

proof fn lemma_unit_bound(shift: nat)
    requires
        shift <= 60,
    ensures
        pow2(shift) <= 0x1000_0000_0000_0000,
{
    vstd::arithmetic::power2::lemma2_to64_rest();
    if shift < 60 {
        lemma_pow2_strictly_increases(shift, 60);
    }
}

/// Whether a finite number that is not negative is as near to a quotient of whole
/// numbers, taken as a number of smallest steps, as an encoding can be: no further off
/// than half of the gap to its neighbour on that side, and only if its significand is
/// even as far as that.
pub open spec fn is_nearest(r: Real, n: nat, d: nat) -> bool {
    let below = if r.significand() == FRACTION_WEIGHT && r.exponent() > 1 {
        r.gap() / 2
    } else {
        r.gap()
    };
    &&& !r.is_negative()
    &&& 2 * n <= (2 * r.steps() + r.gap()) * d
    &&& 2 * r.steps() * d <= 2 * n + below * d
    &&& (2 * n == (2 * r.steps() + r.gap()) * d || 2 * r.steps() * d == 2 * n + below * d)
        ==> r.significand() % 2 == 0
}

proof fn lemma_rounded_quotient_is_near(n: nat, d: nat)
    requires
        d > 0,
    ensures
        ({
            let q = rounded_quotient(n, d);
            &&& 2 * n <= (2 * q + 1) * d
            &&& 2 * q * d <= 2 * n + d
            &&& (2 * n == (2 * q + 1) * d || 2 * q * d == 2 * n + d) ==> q % 2 == 0
        }),
{
    let floor = n / d;
    let rest = n % d;
    lemma_fundamental_div_mod(n as int, d as int);
    let q = rounded_quotient(n, d);
    assert(d * floor == floor * d) by (nonlinear_arith);
    if q == floor {
        assert((2 * q + 1) * d == 2 * (floor * d) + d) by (nonlinear_arith)
            requires
                q == floor,
        ;
        assert(2 * q * d == 2 * (floor * d)) by (nonlinear_arith)
            requires
                q == floor,
        ;
    } else {
        assert((2 * q + 1) * d == 2 * (floor * d) + 3 * d) by (nonlinear_arith)
            requires
                q == floor + 1,
        ;
        assert(2 * q * d == 2 * (floor * d) + 2 * d) by (nonlinear_arith)
            requires
                q == floor + 1,
        ;
    }
}

/// The nearest number is the nearest: where it is finite, no number that has an
/// encoding is nearer, and of two equally near ones it is the one with the even
/// significand.
pub proof fn law_the_nearest_number_is_nearest(n: nat, d: nat)
    requires
        d > 0,
        nearest(n, d).finite(),
    ensures
        is_nearest(nearest(n, d), n, d),
{
    let k = doublings(n, d);
    let unit = d * pow2(k);
    let q = rounded_quotient(n, unit);
    let r = nearest(n, d);
    lemma2_to64();
    lemma_doublings_reach(n, d);
    lemma_pow2_pos(k);
    assert(unit > 0) by (nonlinear_arith)
        requires
            unit == d * pow2(k),
            d > 0,
            pow2(k) > 0,
    ;
    lemma_rounded_quotient_is_near(n, unit);
    lemma_quotient_bound(n, unit);
    assert(r.bits == k * FRACTION_WEIGHT + q);
    let p = pow2(k);
    if k > 0 {
        lemma_pow2_adds(1, (k - 1) as nat);
        let half = d * pow2((k - 1) as nat);
        assert(unit == 2 * half) by (nonlinear_arith)
            requires
                unit == d * (2 * pow2((k - 1) as nat)),
                half == d * pow2((k - 1) as nat),
        ;
        assert(n >= FRACTION_WEIGHT * unit) by (nonlinear_arith)
            requires
                n >= half * SIGNIFICAND_BOUND,
                SIGNIFICAND_BOUND == 2 * FRACTION_WEIGHT,
                unit == 2 * half,
        ;
        assert(q >= FRACTION_WEIGHT) by {
            lemma_fundamental_div_mod(n as int, unit as int);
            let floor = n / unit;
            assert(floor >= FRACTION_WEIGHT) by (nonlinear_arith)
                requires
                    n >= FRACTION_WEIGHT * unit,
                    n < unit * floor + unit,
                    unit > 0,
            ;
        }
    }
    assert(r.steps() == q * p && (q < SIGNIFICAND_BOUND ==> r.gap() == p && r.significand() == q) && (q
        == SIGNIFICAND_BOUND ==> r.gap() == 2 * p && r.significand() == FRACTION_WEIGHT
        && r.exponent() > 1)) by {
        if q < SIGNIFICAND_BOUND {
            if k == 0 {
                assert(r.significand() == q);
                assert(r.scale() == -1074);
            } else {
                assert(r.exponent() == k + 1);
                assert(r.significand() == q);
            }
        } else {
            assert(r.bits == (k + 2) * FRACTION_WEIGHT);
            assert(r.exponent() == k + 2);
            assert(r.significand() == FRACTION_WEIGHT);
            lemma_pow2_adds(1, k);
            assert(FRACTION_WEIGHT * (2 * p) == q * p) by (nonlinear_arith)
                requires
                    q == 2 * FRACTION_WEIGHT,
            ;
        }
    }
    assert((2 * q + 1) * unit == (2 * (q * p) + p) * d && 2 * q * unit == 2 * (q * p) * d && unit == p
        * d) by (nonlinear_arith)
        requires
            unit == d * p,
    ;
    if q == SIGNIFICAND_BOUND {
        assert(q * unit == SIGNIFICAND_BOUND * unit && n < q * unit) by (nonlinear_arith)
            requires
                n < unit * SIGNIFICAND_BOUND,
                q == SIGNIFICAND_BOUND,
        ;
        assert((2 * (q * p) + 2 * p) * d == 2 * (q * unit) + 2 * unit) by (nonlinear_arith)
            requires
                unit == d * p,
        ;
        assert((2 * p) / 2 == p);
    } else if q == FRACTION_WEIGHT && r.exponent() > 1 {
        assert(k > 0);
        assert(q * unit <= n);
        assert(2 * (q * p) * d == 2 * (q * unit)) by (nonlinear_arith)
            requires
                unit == d * p,
        ;
        let below = r.gap() / 2;
        assert(p % 2 == 0 && below > 0) by {
            lemma_pow2_adds(1, (k - 1) as nat);
            lemma_pow2_pos((k - 1) as nat);
        }
        assert(below * d > 0) by (nonlinear_arith)
            requires
                below > 0,
                d > 0,
        ;
    }
}

/// No part of a whole that is not empty is zero.
pub proof fn law_nothing_of_something_is_zero(total: nat)
    requires
        total > 0,
    ensures
        Real::from_count(0).over(Real::from_count(total)) == (Real { bits: 0 }),
{
    reveal(Real::over);
    lemma2_to64();
    lemma_pow2_pos(1074);
    let n = total * pow2(1074);
    assert(n > 0) by (nonlinear_arith)
        requires
            n == total * pow2(1074),
            total > 0,
            pow2(1074) > 0,
    ;
    let whole = nearest(n, 1);
    if doublings(n, 1) == 0 {
        assert(1 * pow2(0) == 1);
        assert(n / 1 == n && n % 1 == 0);
    }
    assert(whole.bits > 0);
    if whole.finite() {
        assert(whole.significand() > 0);
        lemma_zero_steps(whole);
    }
    assert(0 * pow2(1074) == 0);
    lemma_nothing_is_zero(1);
    let none = Real { bits: 0 };
    assert(none.steps() == 0 * pow2(0));
    assert(none.steps() * pow2(1074) == 0) by (nonlinear_arith)
        requires
            none.steps() == 0,
    ;
    if whole.finite() {
        lemma_nothing_is_zero(whole.steps());
    }
}

proof fn lemma_nothing_is_zero(d: nat)
    requires
        d > 0,
    ensures
        nearest(0, d) == (Real { bits: 0 }),
{
    lemma2_to64();
    assert(d * SIGNIFICAND_BOUND > 0);
    assert(d * 1 == d) by (nonlinear_arith);
    lemma_small_mod(0, d);
    vstd::arithmetic::div_mod::lemma_basic_div(0, d as int);
}

/// A number less itself is nothing: zero, or no number where the number is not finite.
pub proof fn law_a_number_less_itself_is_nothing(x: Real)
    ensures
        x.finite() ==> x.plus(x.opposite()) == (Real { bits: 0 }),
        !x.finite() ==> x.plus(x.opposite()).not_a_number(),
{
    reveal(Real::plus);
    assert(x.opposite().magnitude() == x.magnitude());
    assert(x.opposite().is_negative() != x.is_negative());
}

proof fn lemma_rounded_quotient_keeps_order(n: nat, m: nat, d: nat)
    requires
        d > 0,
        n <= m,
    ensures
        rounded_quotient(n, d) <= rounded_quotient(m, d),
{
    lemma_fundamental_div_mod(n as int, d as int);
    lemma_fundamental_div_mod(m as int, d as int);
    let (q, r) = (n / d, n % d);
    let (p, t) = (m / d, m % d);
    assert(q <= p) by (nonlinear_arith)
        requires
            n == d * q + r,
            m == d * p + t,
            n <= m,
            0 <= r,
            t < d,
            d > 0,
    ;
    if q == p {
        assert(r <= t);
    }
}

/// Rounding keeps order: a smaller fraction is not rounded to a larger number.
pub proof fn law_rounding_keeps_order(n: nat, d: nat, other_n: nat, other_d: nat)
    requires
        d > 0,
        other_d > 0,
        n * other_d <= other_n * d,
    ensures
        nearest(n, d).bits <= nearest(other_n, other_d).bits,
{
    let a = other_d * n;
    let b = d * other_n;
    let c = other_d * d;
    lemma_nearest_scales(n, d, other_d);
    lemma_nearest_scales(other_n, other_d, d);
    assert(d * other_d == c && a <= b && c > 0) by (nonlinear_arith)
        requires
            a == other_d * n,
            b == d * other_n,
            c == other_d * d,
            n * other_d <= other_n * d,
            d > 0,
            other_d > 0,
    ;
    let k = doublings(a, c);
    let l = doublings(b, c);
    let unit = c * pow2(k);
    let other = c * pow2(l);
    lemma_doublings_reach(a, c);
    lemma_doublings_reach(b, c);
    lemma_pow2_pos(k);
    lemma_pow2_pos(l);
    assert(unit > 0 && other > 0) by (nonlinear_arith)
        requires
            unit == c * pow2(k),
            other == c * pow2(l),
            c > 0,
            pow2(k) > 0,
            pow2(l) > 0,
    ;
    if k == l {
        lemma_rounded_quotient_keeps_order(a, b, unit);
    } else if k > l {
        // The larger one would need as many doublings.
        let half = c * pow2((k - 1) as nat);
        if k - 1 > l {
            lemma_pow2_strictly_increases(l, (k - 1) as nat);
        }
        assert(other <= half) by (nonlinear_arith)
            requires
                other == c * pow2(l),
                half == c * pow2((k - 1) as nat),
                pow2(l) <= pow2((k - 1) as nat),
        ;
        assert(false);
    } else {
        lemma_quotient_bound(a, unit);
        let half = c * pow2((l - 1) as nat);
        lemma_pow2_adds(1, (l - 1) as nat);
        lemma2_to64();
        assert(other == 2 * half) by (nonlinear_arith)
            requires
                other == c * (2 * pow2((l - 1) as nat)),
                half == c * pow2((l - 1) as nat),
        ;
        let least = (other * FRACTION_WEIGHT) as nat;
        assert(b >= least);
        lemma_fundamental_div_mod_converse(least as int, other as int, FRACTION_WEIGHT as int, 0);
        assert(rounded_quotient(least, other) == FRACTION_WEIGHT);
        lemma_rounded_quotient_keeps_order(least, b, other);
        assert(k * FRACTION_WEIGHT + SIGNIFICAND_BOUND <= l * FRACTION_WEIGHT + FRACTION_WEIGHT);
    }
}

/// What is a number already is not rounded.
pub proof fn law_numbers_are_not_rounded(x: Real)
    requires
        x.finite(),
    ensures
        nearest(x.steps(), 1) == x.absolute(),
{
    let s = x.significand();
    let e = (x.scale() + 1074) as nat;
    let unit = pow2(e);
    let n = x.steps();
    lemma2_to64();
    lemma_pow2_pos(e);
    assert(1 * unit == unit);
    assert(n < unit * SIGNIFICAND_BOUND) by (nonlinear_arith)
        requires
            n == s * unit,
            s < SIGNIFICAND_BOUND,
            unit > 0,
    ;
    if e > 0 {
        let half = pow2((e - 1) as nat);
        lemma_pow2_adds(1, (e - 1) as nat);
        assert(1 * half == half);
        assert(n >= half * SIGNIFICAND_BOUND) by (nonlinear_arith)
            requires
                n == s * (2 * half),
                s >= FRACTION_WEIGHT,
                SIGNIFICAND_BOUND == 2 * FRACTION_WEIGHT,
                half >= 0,
        ;
    }
    lemma_doublings_are(n, 1, e);
    assert(n == unit * s + 0) by (nonlinear_arith)
        requires
            n == s * unit,
    ;
    lemma_fundamental_div_mod_converse(n as int, unit as int, s as int, 0);
    assert(rounded_quotient(n, unit) == s);
    assert(e * FRACTION_WEIGHT + s == x.magnitude());
}

/// Numbers that are not negative are ordered as their encodings are.
pub proof fn law_encodings_order_numbers(x: Real, y: Real)
    requires
        x.finite(),
        y.finite(),
        !x.is_negative(),
        !y.is_negative(),
    ensures
        x.bits <= y.bits <==> x.steps() <= y.steps(),
{
    law_numbers_are_not_rounded(x);
    law_numbers_are_not_rounded(y);
    if x.steps() <= y.steps() {
        law_rounding_keeps_order(x.steps(), 1, y.steps(), 1);
    } else {
        law_rounding_keeps_order(y.steps(), 1, x.steps(), 1);
    }
}

proof fn lemma_signed_order(a: Real, b: Real)
    requires
        a.finite(),
        b.finite(),
        a.rank() <= b.rank(),
    ensures
        a.signed_steps() <= b.signed_steps(),
{
    assert(a.absolute().magnitude() == a.magnitude() && b.absolute().magnitude() == b.magnitude());
    assert(a.absolute().steps() == a.steps() && b.absolute().steps() == b.steps());
    law_encodings_order_numbers(a.absolute(), b.absolute());
    law_encodings_order_numbers(b.absolute(), a.absolute());
    if a.is_negative() != b.is_negative() && a.magnitude() == 0 {
        law_encodings_order_numbers(a.absolute(), Real { bits: 0 });
        lemma_zero_steps(Real { bits: 0 });
    }
    if a.is_negative() != b.is_negative() && b.magnitude() == 0 {
        law_encodings_order_numbers(b.absolute(), Real { bits: 0 });
        lemma_zero_steps(Real { bits: 0 });
    }
}

/// A total of smallest steps, rounded.
spec fn rounded_total(total: int) -> int {
    if total < 0 {
        -(nearest((-total) as nat, 1).bits as int)
    } else {
        nearest(total as nat, 1).bits as int
    }
}

proof fn lemma_rank_of_sum(a: Real, b: Real)
    requires
        a.finite(),
        b.finite(),
    ensures
        a.plus(b).rank() == rounded_total(a.signed_steps() + b.signed_steps()),
        !a.plus(b).not_a_number(),
{
    reveal(Real::plus);
    if a.signed_steps() + b.signed_steps() == 0 {
        law_numbers_are_not_rounded(Real { bits: 0 });
        lemma_zero_steps(Real { bits: 0 });
    }
}

/// Sums keep order, where they are numbers.
pub proof fn law_sums_keep_order(a: Real, b: Real, x: Real, y: Real)
    requires
        a.at_most(b),
        x.at_most(y),
        !a.plus(x).not_a_number(),
        !b.plus(y).not_a_number(),
    ensures
        a.plus(x).at_most(b.plus(y)),
{
    if a.finite() && b.finite() && x.finite() && y.finite() {
        lemma_rank_of_sum(a, x);
        lemma_rank_of_sum(b, y);
        lemma_signed_order(a, b);
        lemma_signed_order(x, y);
        let (s, t) = (a.signed_steps() + x.signed_steps(), b.signed_steps() + y.signed_steps());
        if s >= 0 {
            law_rounding_keeps_order(s as nat, 1, t as nat, 1);
        } else if t < 0 {
            law_rounding_keeps_order((-t) as nat, 1, (-s) as nat, 1);
        }
    } else {
        reveal(Real::plus);
        if a.finite() && x.finite() {
            lemma_rank_of_sum(a, x);
        }
        if b.finite() && y.finite() {
            lemma_rank_of_sum(b, y);
        }
    }
}

/// A sum with a number that is not negative is a number, and not the lowest.
pub proof fn law_adding_stays_a_number(a: Real, x: Real)
    requires
        !a.not_a_number(),
        a.rank() > -(INFINITE_MAGNITUDE as int),
        (Real { bits: 0 }).at_most(x),
    ensures
        !a.plus(x).not_a_number(),
        a.plus(x).rank() > -(INFINITE_MAGNITUDE as int),
{
    if a.finite() && x.finite() {
        lemma_rank_of_sum(a, x);
        let total = a.signed_steps() + x.signed_steps();
        lemma_signed_order(Real { bits: 0 }, x);
        lemma_zero_steps(Real { bits: 0 });
        if total < 0 {
            law_numbers_are_not_rounded(a);
            law_rounding_keeps_order((-total) as nat, 1, a.steps(), 1);
        }
    } else {
        reveal(Real::plus);
    }
}

/// Products with a number that is not negative keep order.
pub proof fn law_products_keep_order(z: Real, x: Real, y: Real)
    requires
        z.finite(),
        x.finite(),
        y.finite(),
        !z.is_negative(),
        !x.is_negative(),
        x.at_most(y),
    ensures
        (Real { bits: 0 }).at_most(z.times(x)),
        z.times(x).at_most(z.times(y)),
{
    reveal(Real::times);
    lemma_pow2_pos(1074);
    let one = pow2(1074);
    let (n, a, b) = (z.steps(), x.steps(), y.steps());
    lemma_signed_order(x, y);
    if y.is_negative() {
        lemma_zero_steps(y);
        lemma_zero_steps(x);
    }
    assert((n * a) * one <= (n * b) * one) by (nonlinear_arith)
        requires
            a <= b,
    ;
    law_rounding_keeps_order(n * a, one, n * b, one);
    if y.is_negative() {
        assert(n * b == 0) by (nonlinear_arith)
            requires
                b == 0,
        ;
        assert(n * a == 0) by (nonlinear_arith)
            requires
                a == 0,
        ;
        law_nearest_is_of_the_fraction(0, one, 0, 1);
        law_numbers_are_not_rounded(Real { bits: 0 });
        lemma_zero_steps(Real { bits: 0 });
    }
}

/// Whole numbers up to a significand are exact.
pub proof fn law_counts_are_exact(n: nat)
    requires
        n <= SIGNIFICAND_BOUND,
    ensures
        Real::from_count(n).steps() == n * pow2(1074),
        Real::from_count(n).finite(),
        !Real::from_count(n).is_negative(),
{
    let one = pow2(1074);
    let total = n * one;
    lemma2_to64();
    lemma_pow2_pos(1074);
    if n == 0 {
        law_numbers_are_not_rounded(Real { bits: 0 });
        lemma_zero_steps(Real { bits: 0 });
        assert(total == 0);
    } else {
        let k = doublings(total, 1);
        lemma_doublings_reach(total, 1);
        assert(1 * pow2(k) == pow2(k));
        lemma_pow2_pos(k);
        lemma_pow2_adds(1, 1074);
        assert(total >= one && total <= one * SIGNIFICAND_BOUND) by (nonlinear_arith)
            requires
                total == n * one,
                1 <= n <= SIGNIFICAND_BOUND,
        ;
        if k > 1075 {
            lemma_pow2_strictly_increases(1075, k);
            if k > 1076 {
                lemma_pow2_strictly_increases(1075, (k - 1) as nat);
            }
            assert(1 * pow2((k - 1) as nat) == pow2((k - 1) as nat));
            assert(false) by (nonlinear_arith)
                requires
                    total >= pow2((k - 1) as nat) * SIGNIFICAND_BOUND,
                    pow2((k - 1) as nat) >= pow2(1075),
                    pow2(1075) == 2 * one,
                    total <= one * SIGNIFICAND_BOUND,
                    one > 0,
            ;
        }
        if k < 1022 {
            lemma_pow2_adds(1, k);
            if k + 1 < 1022 {
                lemma_pow2_strictly_increases(k + 1, 1022);
            }
            lemma_pow2_adds(52, 1022);
            vstd::arithmetic::power2::lemma2_to64_rest();
            assert(false) by (nonlinear_arith)
                requires
                    total < pow2(k) * SIGNIFICAND_BOUND,
                    2 * pow2(k) <= pow2(1022),
                    pow2(1022) * 0x10_0000_0000_0000 == one,
                    total >= one,
                    SIGNIFICAND_BOUND == 0x20_0000_0000_0000,
            ;
        }
        let q = if k <= 1074 {
            lemma_pow2_adds((1074 - k) as nat, k);
            n * pow2((1074 - k) as nat)
        } else {
            lemma_pow2_adds(1, 1074);
            assert(n == SIGNIFICAND_BOUND) by (nonlinear_arith)
                requires
                    n * one >= one * SIGNIFICAND_BOUND,
                    n <= SIGNIFICAND_BOUND,
                    one > 0,
            ;
            FRACTION_WEIGHT as nat
        };
        let unit = pow2(k);
        if k <= 1074 {
            let p = pow2((1074 - k) as nat);
            assert(total == q * unit) by (nonlinear_arith)
                requires
                    total == n * one,
                    one == p * unit,
                    q == n * p,
            ;
        } else {
            assert(total == q * unit) by (nonlinear_arith)
                requires
                    total == n * one,
                    n == 2 * q,
                    unit == 2 * one,
            ;
        }
        assert(total == unit * q + 0) by (nonlinear_arith)
            requires
                total == q * unit,
        ;
        lemma_fundamental_div_mod_converse(total as int, unit as int, q as int, 0);
        assert(rounded_quotient(total, unit) == q);
        let half = pow2((k - 1) as nat);
        lemma_pow2_adds(1, (k - 1) as nat);
        assert(1 * half == half);
        lemma_pow2_pos((k - 1) as nat);
        assert(FRACTION_WEIGHT <= q < SIGNIFICAND_BOUND) by (nonlinear_arith)
            requires
                total == q * unit,
                total < unit * SIGNIFICAND_BOUND,
                total >= half * SIGNIFICAND_BOUND,
                unit == 2 * half,
                half > 0,
                SIGNIFICAND_BOUND == 2 * FRACTION_WEIGHT,
        ;
        let r = Real::from_count(n);
        assert(total * 1 == total);
        assert(r.bits == k * FRACTION_WEIGHT + q);
        assert(r.exponent() == k + 1);
        assert(r.significand() == q && r.scale() + 1074 == k);
        assert(q * unit == total);
    }
}

/// A part of a number is at most all of it.
pub proof fn law_a_part_is_at_most_all(x: Real, y: Real)
    requires
        x.finite(),
        y.finite(),
        !x.is_negative(),
        !y.is_negative(),
        x.bits <= y.bits,
        y.steps() > 0,
    ensures
        (Real { bits: 0 }).at_most(x.over(y)),
        x.over(y).at_most(Real { bits: 0x3ff0_0000_0000_0000 }),
{
    reveal(Real::over);
    law_encodings_order_numbers(x, y);
    let one = Real { bits: 0x3ff0_0000_0000_0000 };
    law_numbers_are_not_rounded(one);
    lemma2_to64();
    vstd::arithmetic::power2::lemma2_to64_rest();
    lemma_pow2_adds(52, 1022);
    assert(one.steps() == pow2(1074));
    let (n, d, p) = (x.steps(), y.steps(), pow2(1074));
    assert((n * p) * 1 <= p * d) by (nonlinear_arith)
        requires
            n <= d,
    ;
    law_rounding_keeps_order(n * p, d, p, 1);
}

/// Totals of smallest steps that are whole numbers up to a significand are exact.
proof fn lemma_whole_total(n: int)
    requires
        -(SIGNIFICAND_BOUND as int) <= n <= SIGNIFICAND_BOUND,
    ensures
        n >= 0 ==> nearest((n * pow2(1074)) as nat, 1) == Real::from_count(n as nat),
        n < 0 ==> nearest((-(n * pow2(1074))) as nat, 1) == Real::from_count((-n) as nat),
        n == 0 <==> n * pow2(1074) == 0,
        n < 0 <==> n * pow2(1074) < 0,
{
    let one = pow2(1074) as int;
    lemma_pow2_pos(1074);
    assert((n == 0 <==> n * one == 0) && (n < 0 <==> n * one < 0) && -(n * one) == (-n) * one)
        by (nonlinear_arith)
        requires
            one > 0,
    ;
}

impl Real {
    /// Whether the number is a given whole one.
    pub open spec fn is_number(self, n: int) -> bool {
        self.finite() && self.signed_steps() == n * pow2(1074)
    }
}

/// Numbers of the same value rank alike.
pub proof fn law_equal_values_rank_alike(x: Real, y: Real)
    requires
        x.finite(),
        y.finite(),
    ensures
        x.equals(y) <==> x.signed_steps() == y.signed_steps(),
        x.at_most(y) <==> x.signed_steps() <= y.signed_steps(),
        x.below(y) <==> x.signed_steps() < y.signed_steps(),
{
    lemma_order_of_signed(x, y);
    lemma_order_of_signed(y, x);
}

proof fn lemma_order_of_signed(x: Real, y: Real)
    requires
        x.finite(),
        y.finite(),
    ensures
        x.rank() <= y.rank() <==> x.signed_steps() <= y.signed_steps(),
{
    let zero = Real { bits: 0 };
    let (a, b) = (x.absolute(), y.absolute());
    assert(a.magnitude() == x.magnitude() && b.magnitude() == y.magnitude());
    assert(a.steps() == x.steps() && b.steps() == y.steps());
    law_encodings_order_numbers(a, b);
    law_encodings_order_numbers(b, a);
    law_encodings_order_numbers(a, zero);
    law_encodings_order_numbers(b, zero);
    lemma_zero_steps(zero);
}

/// Whole numbers that are not too large are added and subtracted exactly.
pub proof fn law_whole_numbers_are_added_exactly(x: Real, y: Real, m: int, n: int)
    requires
        x.is_number(m),
        y.is_number(n),
    ensures
        -(SIGNIFICAND_BOUND as int) <= m + n <= SIGNIFICAND_BOUND ==> x.plus(y).is_number(m + n),
        -(SIGNIFICAND_BOUND as int) <= m - n <= SIGNIFICAND_BOUND ==> x.minus(y).is_number(m - n),
{
    if -(SIGNIFICAND_BOUND as int) <= m + n <= SIGNIFICAND_BOUND {
        lemma_whole_sum(x, y, m, n);
    }
    if -(SIGNIFICAND_BOUND as int) <= m - n <= SIGNIFICAND_BOUND {
        let z = y.opposite();
        assert(z.magnitude() == y.magnitude());
        assert(z.steps() == y.steps());
        assert((-n) * pow2(1074) == -(n * pow2(1074))) by (nonlinear_arith);
        assert(z.steps() == 0 ==> z.signed_steps() == -y.signed_steps());
        assert(z.signed_steps() == -y.signed_steps());
        lemma_whole_sum(x, z, m, -n);
    }
}

proof fn lemma_whole_sum(x: Real, y: Real, m: int, n: int)
    requires
        x.is_number(m),
        y.is_number(n),
        -(SIGNIFICAND_BOUND as int) <= m + n <= SIGNIFICAND_BOUND,
    ensures
        x.plus(y).is_number(m + n),
{
    reveal(Real::plus);
    let one = pow2(1074) as int;
    lemma_whole_total(m + n);
    let total = x.signed_steps() + y.signed_steps();
    assert(total == (m + n) * one) by (nonlinear_arith)
        requires
            total == m * one + n * one,
    ;
    let size = if m + n < 0 {
        (-(m + n)) as nat
    } else {
        (m + n) as nat
    };
    law_counts_are_exact(size);
    assert((-(m + n)) * one == -((m + n) * one)) by (nonlinear_arith);
    let r = Real::from_count(size);
    assert(r.opposite().magnitude() == r.magnitude());
    assert(r.opposite().steps() == r.steps());
    if total == 0 {
        lemma_zero_steps(Real { bits: 0 });
        lemma_zero_steps((Real { bits: 0 }).opposite());
        assert((Real { bits: 0 }).opposite().significand() == 0);
    }
}

/// A product with one is the number itself, and with minus one its opposite.
pub proof fn law_one_leaves_a_number_alone(x: Real)
    requires
        !x.not_a_number(),
    ensures
        Real::from_whole(1).times(x) == x,
        Real::from_whole(-1).times(x) == x.opposite(),
{
    reveal(Real::times);
    law_counts_are_exact(1);
    let one = Real::from_count(1);
    let p = pow2(1074);
    lemma_pow2_pos(1074);
    assert(1 * p == p);
    assert(one.opposite().magnitude() == one.magnitude());
    assert(one.opposite().steps() == one.steps());
    assert(one.steps() == p);
    if x.finite() {
        law_numbers_are_not_rounded(x);
        assert((p * x.steps()) * 1 == x.steps() * p) by (nonlinear_arith);
        law_nearest_is_of_the_fraction(p * x.steps(), p, x.steps(), 1);
    } else {
        assert(x.magnitude() == INFINITE_MAGNITUDE);
    }
}

/// A sum with a finite number is a number wherever the other one is.
pub proof fn law_finite_numbers_add_up(x: Real, y: Real)
    requires
        x.finite(),
        !y.not_a_number(),
    ensures
        !x.plus(y).not_a_number(),
{
    if y.finite() {
        lemma_rank_of_sum(x, y);
    } else {
        reveal(Real::plus);
    }
}

/// Whole numbers that are not too large are multiplied exactly.
pub proof fn law_whole_numbers_are_multiplied_exactly(x: Real, y: Real, m: int, n: int)
    requires
        x.is_number(m),
        y.is_number(n),
        -(SIGNIFICAND_BOUND as int) <= m * n <= SIGNIFICAND_BOUND,
    ensures
        x.times(y).is_number(m * n),
{
    reveal(Real::times);
    let p = pow2(1074);
    lemma_pow2_pos(1074);
    let (a, b) = (x.steps(), y.steps());
    let size = if m * n < 0 {
        (-(m * n)) as nat
    } else {
        (m * n) as nat
    };
    let (u, v) = (
        if m < 0 {
            -m
        } else {
            m
        },
        if n < 0 {
            -n
        } else {
            n
        },
    );
    lemma_size_of_number(x, m);
    lemma_size_of_number(y, n);
    assert(u * v == size) by (nonlinear_arith)
        requires
            u == (if m < 0 {
                -m
            } else {
                m
            }),
            v == (if n < 0 {
                -n
            } else {
                n
            }),
            size == (if m * n < 0 {
                -(m * n)
            } else {
                m * n
            }),
    ;
    assert((a * b) * 1 == (size * p) * p) by (nonlinear_arith)
        requires
            a == u * p,
            b == v * p,
            u * v == size,
    ;
    law_nearest_is_of_the_fraction(a * b, p, size * p, 1);
    law_counts_are_exact(size);
    let r = Real::from_count(size);
    assert(r.opposite().magnitude() == r.magnitude());
    assert(r.opposite().steps() == r.steps());
    assert((-(m * n)) * p == -((m * n) * p)) by (nonlinear_arith);
    if size == 0 {
        assert(size * p == 0);
        assert((m * n) * p == 0);
    } else {
        assert(m != 0 && n != 0) by (nonlinear_arith)
            requires
                m * n != 0,
        ;
        assert(m * n < 0 <==> (m < 0) != (n < 0)) by (nonlinear_arith)
            requires
                m != 0,
                n != 0,
        ;
    }
}

proof fn lemma_size_of_number(x: Real, m: int)
    requires
        x.is_number(m),
    ensures
        x.steps() == (if m < 0 {
            -m
        } else {
            m
        }) * pow2(1074),
        m != 0 ==> x.is_negative() == (m < 0),
{
    let p = pow2(1074) as int;
    lemma_pow2_pos(1074);
    assert((-m) * p == -(m * p) && (m < 0 <==> m * p < 0) && (m == 0 <==> m * p == 0))
        by (nonlinear_arith)
        requires
            p > 0,
    ;
}

/// Encodings of whole numbers below a significand: a significand and the exponent that
/// makes it whole.
pub proof fn law_encodings_of_whole_numbers(x: Real, n: nat, shift: nat)
    requires
        x.finite(),
        shift <= 52,
        x.scale() == -(shift as int),
        x.significand() == n * pow2(shift),
    ensures
        x.is_negative() ==> x.is_number(-(n as int)),
        !x.is_negative() ==> x.is_number(n as int),
{
    let (p, q, one) = (pow2(shift), pow2((1074 - shift) as nat), pow2(1074));
    lemma_pow2_adds(shift, (1074 - shift) as nat);
    assert((n * p) * q == n * one) by (nonlinear_arith)
        requires
            p * q == one,
    ;
    assert(-(n * one) == (-(n as int)) * one) by (nonlinear_arith);
}

/// All of a number, as a part of it, is one, and a smaller part of it is not more.
pub proof fn law_parts_keep_order(x: Real, y: Real, whole: Real)
    requires
        x.finite(),
        y.finite(),
        whole.finite(),
        !x.is_negative(),
        !y.is_negative(),
        !whole.is_negative(),
        x.bits <= y.bits,
        whole.steps() > 0,
    ensures
        x.over(whole).at_most(y.over(whole)),
        whole.over(whole) == (Real { bits: 0x3ff0_0000_0000_0000 }),
{
    reveal(Real::over);
    law_encodings_order_numbers(x, y);
    lemma_pow2_pos(1074);
    let (a, b, d, p) = (x.steps(), y.steps(), whole.steps(), pow2(1074));
    assert((a * p) * d <= (b * p) * d) by (nonlinear_arith)
        requires
            a <= b,
    ;
    law_rounding_keeps_order(a * p, d, b * p, d);
    let one = Real { bits: 0x3ff0_0000_0000_0000 };
    law_numbers_are_not_rounded(one);
    lemma2_to64();
    vstd::arithmetic::power2::lemma2_to64_rest();
    lemma_pow2_adds(52, 1022);
    assert(one.steps() == p);
    assert((d * p) * 1 == p * d) by (nonlinear_arith);
    law_nearest_is_of_the_fraction(d * p, d, p, 1);
}

/// Shares of a count keep order: a smaller part is not a larger share, and all of it is
/// one.
pub proof fn law_shares_keep_order(part: nat, more: nat, whole: nat)
    requires
        part <= more <= SIGNIFICAND_BOUND,
        0 < whole <= SIGNIFICAND_BOUND,
    ensures
        Real::from_count(part).over(Real::from_count(whole)).at_most(
            Real::from_count(more).over(Real::from_count(whole)),
        ),
        Real::from_count(whole).over(Real::from_count(whole)) == (Real {
            bits: 0x3ff0_0000_0000_0000,
        }),
{
    law_counts_are_exact(part);
    law_counts_are_exact(more);
    law_counts_are_exact(whole);
    let one = pow2(1074);
    lemma_pow2_pos(1074);
    assert(part * one <= more * one && whole * one > 0) by (nonlinear_arith)
        requires
            part <= more,
            whole > 0,
            one > 0,
    ;
    law_encodings_order_numbers(Real::from_count(part), Real::from_count(more));
    law_parts_keep_order(
        Real::from_count(part),
        Real::from_count(more),
        Real::from_count(whole),
    );
}

/// One over a number that is not below one: the larger the number, the smaller, and one of
/// one.
pub proof fn law_inverses_turn_order(x: Real, y: Real)
    requires
        (Real { bits: 0x3ff0_0000_0000_0000 }).at_most(x),
        x.at_most(y),
    ensures
        ({
            let one = Real { bits: 0x3ff0_0000_0000_0000 };
            &&& one.over(y).at_most(one.over(x))
            &&& one.over(one) == one
            &&& !one.over(x).not_a_number()
        }),
{
    reveal(Real::over);
    let one = Real { bits: 0x3ff0_0000_0000_0000 };
    let p = pow2(1074);
    lemma_pow2_pos(1074);
    lemma2_to64();
    vstd::arithmetic::power2::lemma2_to64_rest();
    lemma_pow2_adds(52, 1022);
    assert(one.steps() == p);
    law_parts_keep_order(one, one, one);
    if x.finite() {
        law_encodings_order_numbers(one, x);
        if y.finite() {
            law_encodings_order_numbers(x, y);
            let (a, b) = (x.steps(), y.steps());
            assert((p * p) * a <= (p * p) * b) by (nonlinear_arith)
                requires
                    a <= b,
            ;
            law_rounding_keeps_order(p * p, b, p * p, a);
        }
    }
}


/// A share of a hundred: a hundred percent are the whole, none are nothing, and more percent are
/// never a smaller share.
pub proof fn law_more_percent_are_no_smaller_share(less: Real, more: Real)
    requires
        less.finite(),
        more.finite(),
        !less.is_negative(),
        !more.is_negative(),
        less.at_most(more),
    ensures
        fraction_of_hundred(less).at_most(fraction_of_hundred(more)),
        less.bits == 0 ==> fraction_of_hundred(less).equals(Real { bits: 0 }),
        less.bits == 0x4059_0000_0000_0000 ==> fraction_of_hundred(less).bits
            == 0x3ff0_0000_0000_0000,
{
    let hundred = Real { bits: 0x4059_0000_0000_0000 };
    lemma_zero_steps(hundred);
    assert(hundred.steps() > 0);
    law_parts_keep_order(hundred, hundred, hundred);
    if less.bits <= more.bits {
        law_parts_keep_order(less, more, hundred);
    } else {
        law_encodings_order_numbers(more, less);
        law_equal_values_rank_alike(less, more);
    }
    if less.bits == 0 {
        reveal(Real::over);
        let (d, p) = (hundred.steps(), pow2(1074));
        assert(less.steps() == 0) by {
            assert(less.significand() == 0);
            assert(0 * pow2((less.scale() + 1074) as nat) == 0);
        }
        assert(0 * p == 0 && 0 * d == 0) by (nonlinear_arith);
        law_nearest_is_of_the_fraction(0, d, 0, 1);
        law_numbers_are_not_rounded(less);
        assert(less.over(hundred) == less);
    }
}


/// A whole turn is some number of degrees.
pub(crate) proof fn lemma_turn_is_not_nothing()
    ensures
        (Real { bits: 0x4076_8000_0000_0000 }).steps() != 0,
{
    lemma_zero_steps(Real { bits: 0x4076_8000_0000_0000 });
}


/// A whole number is rounded to itself.
pub(crate) proof fn lemma_whole_is_rounded_to_itself(x: Real, n: nat)
    requires
        x.is_number(n as int),
    ensures
        x.rounded() == n,
        n > 0 ==> !x.is_negative(),
{
    let one = pow2(1074);
    lemma_pow2_pos(1074);
    let m = x.significand();
    assert(n > 0 ==> n * one > 0) by (nonlinear_arith)
        requires
            one > 0,
    ;
    assert(x.steps() == n * one);
    if x.scale() >= 0 {
        let p = pow2(x.scale() as nat);
        lemma_pow2_adds(x.scale() as nat, 1074);
        assert(m * p == n) by (nonlinear_arith)
            requires
                m * (p * one) == n * one,
                one > 0,
        ;
    } else {
        let k = (-x.scale()) as nat;
        let (p, q) = (pow2(k), pow2((1074 - k) as nat));
        lemma_pow2_pos(k);
        lemma_pow2_pos((1074 - k) as nat);
        lemma_pow2_adds(k, (1074 - k) as nat);
        assert(m == n * p) by (nonlinear_arith)
            requires
                m * q == n * one,
                p * q == one,
                q > 0,
        ;
        assert((2 * m + p) / (2 * p) == n) by (nonlinear_arith)
            requires
                m == n * p,
                p > 0,
        ;
    }
}


/// How far two numbers lie apart does not depend on which is taken from which.
pub proof fn law_distances_have_no_side(x: Real, y: Real)
    requires
        x.finite(),
        y.finite(),
    ensures
        x.minus(y).absolute() == y.minus(x).absolute(),
{
    reveal(Real::plus);
    assert(x.opposite().signed_steps() == -x.signed_steps());
    assert(y.opposite().signed_steps() == -y.signed_steps());
}


/// How large a whole number is, whatever its sign.
pub(crate) proof fn lemma_size_of_difference(x: Real, n: int)
    requires
        x.is_number(n),
    ensures
        x.absolute().finite(),
        n == 0 ==> x.absolute().signed_steps() == 0,
        n != 0 ==> x.absolute().signed_steps() >= pow2(1074),
{
    let one = pow2(1074);
    lemma_pow2_pos(1074);
    assert(x.absolute().steps() == x.steps());
    assert(n > 0 ==> n * one >= one) by (nonlinear_arith)
        requires
            one > 0,
    ;
    assert(n < 0 ==> n * one <= -one) by (nonlinear_arith)
        requires
            one > 0,
    ;
    assert(n == 0 ==> n * one == 0) by (nonlinear_arith);
}

/// A tenth lies between nothing and one.
pub(crate) proof fn lemma_a_tenth()
    ensures
        (Real { bits: 0x3fb9_9999_9999_999a }).finite(),
        0 < (Real { bits: 0x3fb9_9999_9999_999a }).signed_steps() < pow2(1074),
{
    let tenth = Real { bits: 0x3fb9_9999_9999_999a };
    lemma_zero_steps(tenth);
    lemma2_to64();
    vstd::arithmetic::power2::lemma2_to64_rest();
    assert(tenth.scale() == -56);
    let q = pow2(1018);
    lemma_pow2_pos(1018);
    lemma_pow2_adds(56, 1018);
    assert(tenth.significand() < pow2(56));
    assert(tenth.significand() * q < pow2(56) * q) by (nonlinear_arith)
        requires
            tenth.significand() < pow2(56),
            q > 0,
    ;
}


/// Quotients by a number above zero keep order.
pub proof fn law_quotients_keep_order(x: Real, y: Real, whole: Real)
    requires
        x.at_most(y),
        whole.finite(),
        !whole.is_negative(),
        whole.bits > 0,
    ensures
        x.over(whole).at_most(y.over(whole)),
        x.at_most(Real { bits: 0 }) ==> x.over(whole).at_most(Real { bits: 0 }),
        (Real { bits: 0 }).at_most(y) ==> (Real { bits: 0 }).at_most(y.over(whole)),
{
    lemma_zero_steps(whole);
    assert(whole.steps() > 0) by {
        assert(whole.significand() > 0);
    }
    lemma_quotient_of_nothing(x, whole);
    lemma_quotient_of_nothing(y, whole);
    lemma_sign_of_quotient(x, whole);
    lemma_sign_of_quotient(y, whole);
    lemma_sign_of_quotient(x.opposite(), whole);
    lemma_sign_of_quotient(y.opposite(), whole);
    if !x.is_negative() && !y.is_negative() {
        if x.finite() && y.finite() {
            law_parts_keep_order(x, y, whole);
        }
    } else if x.is_negative() && y.is_negative() {
        let (a, b) = (y.opposite(), x.opposite());
        if a.finite() && b.finite() {
            law_parts_keep_order(a, b, whole);
        }
    }
}

/// A quotient by a number above zero has the sign of what is divided.
proof fn lemma_sign_of_quotient(x: Real, whole: Real)
    requires
        !x.not_a_number(),
        whole.finite(),
        !whole.is_negative(),
        whole.steps() > 0,
    ensures
        !x.over(whole).not_a_number(),
        x.is_negative() ==> x.over(whole) == x.opposite().over(whole).opposite(),
        !x.is_negative() ==> !x.over(whole).is_negative(),
        !x.is_negative() && !x.finite() ==> x.over(whole).bits == INFINITE_MAGNITUDE,
{
    reveal(Real::over);
    assert(x.opposite().finite() == x.finite());
    assert(x.opposite().steps() == x.steps());
}

/// The quotient of a zero is a zero.
proof fn lemma_quotient_of_nothing(x: Real, whole: Real)
    requires
        whole.finite(),
        whole.steps() > 0,
    ensures
        x.rank() == 0 ==> x.over(whole).rank() == 0,
{
    if x.rank() == 0 {
        reveal(Real::over);
        assert(x.significand() == 0);
        lemma_zero_steps(x);
        assert(0 * pow2(1074) == 0);
        law_nearest_is_of_the_fraction(0, whole.steps(), 0, 1);
        law_numbers_are_not_rounded(Real { bits: 0 });
        lemma_zero_steps(Real { bits: 0 });
    }
}


/// A whole number as a double is that number.
pub(crate) proof fn lemma_whole_is_a_number(n: int)
    requires
        -(SIGNIFICAND_BOUND as int) <= n <= SIGNIFICAND_BOUND,
    ensures
        Real::from_whole(n).is_number(n),
{
    let size = (if n < 0 {
        -n
    } else {
        n
    }) as nat;
    let x = Real::from_count(size);
    law_counts_are_exact(size);
    assert((-(size as int)) * pow2(1074) == -(size * pow2(1074))) by (nonlinear_arith);
    assert(x.opposite().steps() == x.steps());
}


/// The distance from one to the next number lies between nothing and one.
pub(crate) proof fn lemma_a_hair()
    ensures
        (Real { bits: 0x3cb0_0000_0000_0000 }).finite(),
        0 < (Real { bits: 0x3cb0_0000_0000_0000 }).signed_steps() < pow2(1074),
{
    let hair = Real { bits: 0x3cb0_0000_0000_0000 };
    let one = Real { bits: 0x3ff0_0000_0000_0000 };
    lemma_zero_steps(hair);
    lemma2_to64();
    vstd::arithmetic::power2::lemma2_to64_rest();
    lemma_pow2_adds(52, 1022);
    assert(one.steps() == pow2(1074));
    law_encodings_order_numbers(one, hair);
}


/// Three and its opposite.
pub(crate) proof fn lemma_three()
    ensures
        (Real { bits: 0x4008_0000_0000_0000 }).is_number(3),
        (Real { bits: 0xc008_0000_0000_0000 }).is_number(-3),
{
    lemma2_to64();
    vstd::arithmetic::power2::lemma2_to64_rest();
    law_encodings_of_whole_numbers(Real { bits: 0x4008_0000_0000_0000 }, 3, 51);
    law_encodings_of_whole_numbers(Real { bits: 0xc008_0000_0000_0000 }, 3, 51);
}


/// What a finite number is rounded to lies within a half of it, and a half itself is rounded away from
/// zero; the ceiling of a number is not below it and less than one above it.
pub proof fn law_rounding_to_whole_numbers(x: Real)
    requires
        x.finite(),
    ensures
        ({
            let one = pow2(1074) as int;
            &&& -one <= 2 * x.signed_steps() - 2 * (x.nearest_whole() * one) <= one
            &&& 2 * x.signed_steps() - 2 * (x.nearest_whole() * one) == one ==> x.is_negative()
            &&& 2 * x.signed_steps() - 2 * (x.nearest_whole() * one) == -one ==> !x.is_negative()
            &&& 0 <= x.ceiling() * one - x.signed_steps() < one
        }),
{
    lemma_parts_of_a_number(x);
    let one = pow2(1074) as int;
    let (r, t) = (x.rounded() as int, x.truncated() as int);
    assert((-r) * one == -(r * one) && (-t) * one == -(t * one) && (t + 1) * one == t * one + one)
        by (nonlinear_arith);
}

/// How the rounded and the truncated part of a number lie to it, without its sign.
proof fn lemma_parts_of_a_number(x: Real)
    requires
        x.finite(),
    ensures
        ({
            let one = pow2(1074);
            &&& 2 * x.steps() < 2 * (x.rounded() * one) + one
            &&& 2 * (x.rounded() * one) <= 2 * x.steps() + one
            &&& x.truncated() * one <= x.steps()
            &&& x.steps() < x.truncated() * one + one
            &&& x.whole() <==> x.steps() == x.truncated() * one
        }),
{
    let one = pow2(1074);
    lemma_pow2_pos(1074);
    let m = x.significand();
    if x.scale() >= 0 {
        let p = pow2(x.scale() as nat);
        lemma_pow2_adds(x.scale() as nat, 1074);
        assert(m * (p * one) == (m * p) * one) by (nonlinear_arith);
    } else {
        let k = (-x.scale()) as nat;
        let (p, q) = (pow2(k), pow2((1074 - k) as nat));
        lemma_pow2_pos(k);
        lemma_pow2_pos((1074 - k) as nat);
        lemma_pow2_adds(k, (1074 - k) as nat);
        let (r, t) = (x.rounded(), x.truncated());
        vstd::arithmetic::div_mod::lemma_fundamental_div_mod(m as int, p as int);
        vstd::arithmetic::div_mod::lemma_fundamental_div_mod((2 * m + p) as int, (2 * p) as int);
        let (left, rest) = (m % p, (2 * m + p) % (2 * p));
        assert(m == p * t + left && left < p);
        assert(2 * m + p == (2 * p) * r + rest && rest < 2 * p);
        assert(m * q == t * one + left * q && left * q < one && (left == 0 <==> left * q == 0))
            by (nonlinear_arith)
            requires
                m == p * t + left,
                left < p,
                p * q == one,
                q > 0,
        ;
        assert(2 * (m * q) + one == 2 * (r * one) + rest * q && rest * q < 2 * one) by (nonlinear_arith)
            requires
                2 * m + p == (2 * p) * r + rest,
                rest < 2 * p,
                p * q == one,
                q > 0,
        ;
    }
}


/// A finite number with more is not less.
pub(crate) proof fn lemma_more_keeps_order(from: Real, x: Real, y: Real)
    requires
        from.finite(),
        x.at_most(y),
    ensures
        from.plus(x).at_most(from.plus(y)),
{
    lemma_sum_is_a_number(from, x);
    lemma_sum_is_a_number(from, y);
    law_sums_keep_order(from, from, x, y);
}

proof fn lemma_sum_is_a_number(from: Real, x: Real)
    requires
        from.finite(),
        !x.not_a_number(),
    ensures
        !from.plus(x).not_a_number(),
{
    if x.finite() {
        law_finite_numbers_add_up(from, x);
    } else {
        reveal(Real::plus);
    }
}


/// A number divided by one is the number.
pub(crate) proof fn lemma_over_one(x: Real)
    requires
        x.finite(),
    ensures
        x.over(Real { bits: 0x3ff0_0000_0000_0000 }) == x,
{
    reveal(Real::over);
    let one = Real { bits: 0x3ff0_0000_0000_0000 };
    lemma2_to64();
    vstd::arithmetic::power2::lemma2_to64_rest();
    lemma_pow2_pos(1074);
    lemma_pow2_adds(52, 1022);
    assert(one.steps() == pow2(1074));
    let (s, p) = (x.steps(), pow2(1074));
    assert((s * p) * 1 == s * p) by (nonlinear_arith);
    law_nearest_is_of_the_fraction(s * p, p, s, 1);
    let plain = x.absolute();
    assert(plain.steps() == s && plain.finite() && !plain.is_negative());
    law_numbers_are_not_rounded(plain);
}

/// A product with a number that is not negative has the sign of the other.
pub(crate) proof fn lemma_sign_of_product(z: Real, x: Real)
    requires
        z.finite(),
        x.finite(),
        !z.is_negative(),
    ensures
        !z.times(x).not_a_number(),
        (Real { bits: 0 }).at_most(x) ==> (Real { bits: 0 }).at_most(z.times(x)),
        x.at_most(Real { bits: 0 }) ==> z.times(x).at_most(Real { bits: 0 }),
{
    reveal(Real::times);
    if x.rank() == 0 {
        assert(x.significand() == 0);
        lemma_zero_steps(x);
        lemma_pow2_pos(1074);
        assert(z.steps() * 0 == 0) by (nonlinear_arith);
        law_nearest_is_of_the_fraction(0, pow2(1074), 0, 1);
        law_numbers_are_not_rounded(Real { bits: 0 });
        lemma_zero_steps(Real { bits: 0 });
    }
}


/// A whole number is its own nearest, also as an index.
pub(crate) proof fn lemma_nearest_of_whole(x: Real, n: int)
    requires
        x.is_number(n),
        i32::MIN <= n <= i32::MAX,
    ensures
        x.nearest_whole() == n,
        x.nearest_index() == n,
{
    law_rounding_to_whole_numbers(x);
    let one = pow2(1074) as int;
    lemma_pow2_pos(1074);
    let r = x.nearest_whole();
    assert(r == n) by (nonlinear_arith)
        requires
            -one <= 2 * (n * one) - 2 * (r * one) <= one,
            one > 0,
    ;
}

/// A number above zero is encoded in one way.
pub(crate) proof fn lemma_same_number(x: Real, y: Real, n: int)
    requires
        x.is_number(n),
        y.is_number(n),
        n > 0,
    ensures
        x == y,
        x.steps() > 0,
{
    let one = pow2(1074) as int;
    lemma_pow2_pos(1074);
    assert(n * one > 0) by (nonlinear_arith)
        requires
            n > 0,
            one > 0,
    ;
    law_numbers_are_not_rounded(x);
    law_numbers_are_not_rounded(y);
}

}
