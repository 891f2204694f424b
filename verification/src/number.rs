//! Double-precision numbers, held as the bits of their IEEE 754 encoding.
//!
//! Ordering, bounding and selecting such numbers can be read off the encoding: the
//! low 63 bits are a magnitude that grows with the absolute value, and the top bit
//! is the sign, so comparing two numbers is comparing two signed integers.

use vstd::arithmetic::power2::pow2;
use vstd::prelude::*;

verus! {

/// A double-precision number, by its encoding.
#[derive(Clone, Copy, Debug, PartialEq, Eq, Structural)]
pub struct Real {
    /// The IEEE 754 encoding.
    pub bits: u64,
}

/// Weight of the sign bit.
pub const SIGN_WEIGHT: u64 = 0x8000_0000_0000_0000;

/// Magnitude of an infinity; any larger one encodes no number.
pub const INFINITE_MAGNITUDE: u64 = 0x7ff0_0000_0000_0000;

impl Real {
    /// The encoding without its sign.
    pub open spec fn magnitude(self) -> int {
        self.bits as int % SIGN_WEIGHT as int
    }

    /// Whether the sign bit is set.
    pub open spec fn is_negative(self) -> bool {
        self.bits >= SIGN_WEIGHT
    }

    /// Where the number stands in the order of all numbers. The two zeros
    /// share a place.
    pub open spec fn rank(self) -> int {
        if self.is_negative() {
            -self.magnitude()
        } else {
            self.magnitude()
        }
    }

    /// Whether the encoding stands for no number.
    pub open spec fn not_a_number(self) -> bool {
        self.magnitude() > INFINITE_MAGNITUDE
    }

    /// Whether the number is neither infinite nor undefined.
    pub open spec fn finite(self) -> bool {
        self.magnitude() < INFINITE_MAGNITUDE
    }

    /// Whether both are numbers and the first is the smaller.
    pub open spec fn below(self, other: Real) -> bool {
        !self.not_a_number() && !other.not_a_number() && self.rank() < other.rank()
    }

    /// Whether both are numbers and the first is not the larger.
    pub open spec fn at_most(self, other: Real) -> bool {
        !self.not_a_number() && !other.not_a_number() && self.rank() <= other.rank()
    }

    /// Whether both are numbers and have the same value.
    pub open spec fn equals(self, other: Real) -> bool {
        !self.not_a_number() && !other.not_a_number() && self.rank() == other.rank()
    }

    /// The number without its sign.
    pub open spec fn absolute(self) -> Real {
        Real { bits: self.magnitude() as u64 }
    }

    /// The number with its sign flipped.
    pub open spec fn opposite(self) -> Real {
        Real {
            bits: if self.is_negative() {
                (self.bits - SIGN_WEIGHT) as u64
            } else {
                (self.bits + SIGN_WEIGHT) as u64
            },
        }
    }

    /// The number moved to the nearer end of a range it lies outside of.
    pub open spec fn clamped(self, low: Real, high: Real) -> Real {
        if self.below(low) {
            low
        } else if high.below(self) {
            high
        } else {
            self
        }
    }

    /// Positive zero.
    pub fn zero() -> (r: Real)
        ensures
            r == (Real { bits: 0 }),
    {
        Real { bits: 0 }
    }

    /// One.
    pub fn one() -> (r: Real)
        ensures
            r == (Real { bits: 0x3ff0_0000_0000_0000 }),
    {
        Real { bits: 0x3ff0_0000_0000_0000 }
    }

    /// One half.
    pub fn half() -> (r: Real)
        ensures
            r == (Real { bits: 0x3fe0_0000_0000_0000 }),
    {
        Real { bits: 0x3fe0_0000_0000_0000 }
    }

    /// Positive infinity.
    pub fn infinity() -> (r: Real)
        ensures
            r == (Real { bits: INFINITE_MAGNITUDE }),
    {
        Real { bits: INFINITE_MAGNITUDE }
    }

    pub(crate) fn mag(self) -> (m: u64)
        ensures
            m == self.magnitude(),
            m < SIGN_WEIGHT,
    {
        self.bits % SIGN_WEIGHT
    }

    fn place(self) -> (p: i64)
        ensures
            p == self.rank(),
    {
        if self.bits >= SIGN_WEIGHT {
            -(self.mag() as i64)
        } else {
            self.mag() as i64
        }
    }

    /// Whether the encoding stands for no number.
    pub fn is_nan(self) -> (r: bool)
        ensures
            r == self.not_a_number(),
    {
        self.mag() > INFINITE_MAGNITUDE
    }

    /// Whether the number is neither infinite nor undefined.
    pub fn is_finite(self) -> (r: bool)
        ensures
            r == self.finite(),
    {
        self.mag() < INFINITE_MAGNITUDE
    }

    /// `self < other`.
    pub fn lt(self, other: Real) -> (r: bool)
        ensures
            r == self.below(other),
    {
        !self.is_nan() && !other.is_nan() && self.place() < other.place()
    }

    /// `self <= other`.
    pub fn le(self, other: Real) -> (r: bool)
        ensures
            r == self.at_most(other),
    {
        !self.is_nan() && !other.is_nan() && self.place() <= other.place()
    }

    /// `self == other`, by value.
    pub fn same(self, other: Real) -> (r: bool)
        ensures
            r == self.equals(other),
    {
        !self.is_nan() && !other.is_nan() && self.place() == other.place()
    }

    /// The absolute value.
    pub fn abs(self) -> (r: Real)
        ensures
            r == self.absolute(),
    {
        Real { bits: self.mag() }
    }

    /// The number with its sign flipped.
    pub fn neg(self) -> (r: Real)
        ensures
            r == self.opposite(),
    {
        if self.bits >= SIGN_WEIGHT {
            Real { bits: self.bits - SIGN_WEIGHT }
        } else {
            Real { bits: self.bits + SIGN_WEIGHT }
        }
    }

    /// Move the number into a range.
    pub fn clamp(self, low: Real, high: Real) -> (r: Real)
        requires
            low.at_most(high),
        ensures
            r == self.clamped(low, high),
    {
        if self.lt(low) {
            low
        } else if high.lt(self) {
            high
        } else {
            self
        }
    }
}

/// A number moved into a range lies in it, and one that lay in it is left alone.
pub proof fn law_clamped_number_lies_in_range(x: Real, low: Real, high: Real)
    requires
        low.at_most(high),
        !x.not_a_number(),
    ensures
        low.at_most(x.clamped(low, high)),
        x.clamped(low, high).at_most(high),
        low.at_most(x) && x.at_most(high) ==> x.clamped(low, high) == x,
{
}

/// Weight of the lowest bit of the exponent: the width of the fraction.
pub const FRACTION_WEIGHT: u64 = 0x10_0000_0000_0000;

impl Real {
    /// The exponent field of the encoding.
    pub open spec fn exponent(self) -> int {
        self.magnitude() / FRACTION_WEIGHT as int
    }

    /// The whole number that the value is a power-of-two multiple of.
    pub open spec fn significand(self) -> nat {
        let fraction = self.magnitude() % FRACTION_WEIGHT as int;
        (if self.exponent() == 0 {
            fraction
        } else {
            fraction + FRACTION_WEIGHT
        }) as nat
    }

    /// The power of two that the significand is multiplied by.
    pub open spec fn scale(self) -> int {
        if self.exponent() == 0 {
            -1074
        } else {
            self.exponent() - 1075
        }
    }

    /// The absolute value of a finite number, rounded towards zero.
    pub open spec fn truncated(self) -> nat {
        if self.scale() >= 0 {
            self.significand() * pow2(self.scale() as nat)
        } else {
            self.significand() / pow2((-self.scale()) as nat)
        }
    }

    /// Whether a finite number has no fractional part.
    pub open spec fn whole(self) -> bool {
        self.scale() >= 0 || self.significand() % pow2((-self.scale()) as nat) == 0
    }

    /// The absolute value of a finite number, rounded to the nearest whole one,
    /// halves up.
    pub open spec fn rounded(self) -> nat {
        if self.scale() >= 0 {
            self.significand() * pow2(self.scale() as nat)
        } else {
            (2 * self.significand() + pow2((-self.scale()) as nat)) / (2 * pow2(
                (-self.scale()) as nat,
            ))
        }
    }

    /// The significand, and the power of two it is multiplied by.
    pub(crate) fn parts(self) -> (r: (u64, i64))
        ensures
            r.0 == self.significand(),
            r.1 == self.scale(),
            r.0 < 0x20_0000_0000_0000,
            -1074 <= r.1 <= 972,
            r.1 >= 0 ==> r.0 >= 0x10_0000_0000_0000,
    {
        let magnitude: u64 = self.mag();
        let exponent: u64 = magnitude / FRACTION_WEIGHT;
        let fraction: u64 = magnitude % FRACTION_WEIGHT;
        if exponent == 0 {
            (fraction, -1074)
        } else {
            (fraction + FRACTION_WEIGHT, exponent as i64 - 1075)
        }
    }

    /// The significand times its power of two, where that is a whole number.
    fn scaled_up(significand: u64, scale: u64) -> (r: u64)
        requires
            0x10_0000_0000_0000 <= significand < 0x20_0000_0000_0000,
            scale <= 972,
        ensures
            significand * pow2(scale as nat) <= u64::MAX ==> r == significand * pow2(scale as nat),
            significand * pow2(scale as nat) > u64::MAX ==> r == u64::MAX,
    {
        proof {
            vstd::arithmetic::power2::lemma2_to64();
            if scale > 12 {
                vstd::arithmetic::power2::lemma_pow2_strictly_increases(12, scale as nat);
            }
        }
        if scale >= 12 {
            assert(significand * pow2(scale as nat) >= 0x10_0000_0000_0000 * 0x1000) by (nonlinear_arith)
                requires
                    significand >= 0x10_0000_0000_0000,
                    pow2(scale as nat) >= 0x1000,
            ;
            u64::MAX
        } else {
            proof {
                if scale < 11 {
                    vstd::arithmetic::power2::lemma_pow2_strictly_increases(scale as nat, 11);
                }
            }
            assert(significand * pow2(scale as nat) <= 0x1f_ffff_ffff_ffff * 0x800) by (nonlinear_arith)
                requires
                    significand <= 0x1f_ffff_ffff_ffff,
                    pow2(scale as nat) <= 0x800,
            ;
            proof {
                vstd::bits::lemma_u64_shl_is_mul(significand, scale);
            }
            significand << scale
        }
    }

    /// The absolute value of a finite number, rounded towards zero and held to
    /// what a machine word can carry.
    pub fn truncate(self) -> (r: u64)
        ensures
            self.truncated() <= u64::MAX ==> r == self.truncated(),
            self.truncated() > u64::MAX ==> r == u64::MAX,
    {
        let (significand, scale) = self.parts();
        if scale >= 0 {
            return Self::scaled_up(significand, scale as u64);
        }
        let shift: u64 = (-scale) as u64;
        proof {
            vstd::arithmetic::power2::lemma_pow2_pos(shift as nat);
        }
        if shift >= 64 {
            proof {
                vstd::arithmetic::power2::lemma2_to64();
                if shift > 64 {
                    vstd::arithmetic::power2::lemma_pow2_strictly_increases(64, shift as nat);
                }
                vstd::arithmetic::div_mod::lemma_basic_div(
                    significand as int,
                    pow2(shift as nat) as int,
                );
            }
            return 0;
        }
        proof {
            vstd::bits::lemma_u64_shr_is_div(significand, shift);
            vstd::arithmetic::div_mod::lemma_div_is_ordered_by_denominator(
                significand as int,
                1,
                pow2(shift as nat) as int,
            );
        }
        significand >> shift
    }

    /// Whether a finite number has no fractional part.
    pub fn is_whole(self) -> (r: bool)
        ensures
            r == self.whole(),
    {
        let (significand, scale) = self.parts();
        if scale >= 0 {
            return true;
        }
        let shift: u64 = (-scale) as u64;
        proof {
            vstd::arithmetic::power2::lemma_pow2_pos(shift as nat);
        }
        if shift >= 64 {
            proof {
                vstd::arithmetic::power2::lemma2_to64();
                if shift > 64 {
                    vstd::arithmetic::power2::lemma_pow2_strictly_increases(64, shift as nat);
                }
                vstd::arithmetic::div_mod::lemma_small_mod(significand as nat, pow2(shift as nat));
            }
            return significand == 0;
        }
        let unit: u64 = Self::unit(shift);
        significand % unit == 0
    }

    /// A power of two.
    pub(crate) fn unit(shift: u64) -> (r: u64)
        requires
            shift < 64,
        ensures
            r == pow2(shift as nat),
            r > 0,
    {
        proof {
            vstd::bits::lemma_u64_pow2_no_overflow(shift as nat);
            vstd::arithmetic::power2::lemma_pow2_pos(shift as nat);
            assert(1 * pow2(shift as nat) == pow2(shift as nat)) by (nonlinear_arith);
            vstd::bits::lemma_u64_shl_is_mul(1, shift);
        }
        1u64 << shift
    }

    /// The absolute value of a finite number, rounded to the nearest whole one,
    /// halves up, and held to what a machine word can carry.
    pub fn round(self) -> (r: u64)
        ensures
            self.rounded() <= u64::MAX ==> r == self.rounded(),
            self.rounded() > u64::MAX ==> r == u64::MAX,
    {
        let (significand, scale) = self.parts();
        if scale >= 0 {
            return Self::scaled_up(significand, scale as u64);
        }
        let shift: u64 = (-scale) as u64;
        proof {
            vstd::arithmetic::power2::lemma_pow2_pos(shift as nat);
        }
        if shift >= 63 {
            proof {
                vstd::arithmetic::power2::lemma2_to64_rest();
                if shift > 63 {
                    vstd::arithmetic::power2::lemma_pow2_strictly_increases(63, shift as nat);
                }
                vstd::arithmetic::div_mod::lemma_basic_div(
                    2 * significand as int + pow2(shift as nat) as int,
                    2 * pow2(shift as nat) as int,
                );
            }
            return 0;
        }
        let unit: u64 = Self::unit(shift);
        let floor: u64 = significand / unit;
        let rest: u64 = significand % unit;
        let up: u64 = if rest >= unit - rest {
            1
        } else {
            0
        };
        assert(significand == floor * unit + rest) by {
            vstd::arithmetic::div_mod::lemma_fundamental_div_mod(significand as int, unit as int);
            assert(unit * floor == floor * unit) by (nonlinear_arith);
        }
        assert(floor <= significand) by (nonlinear_arith)
            requires
                significand == floor * unit + rest,
                unit > 0,
        ;
        proof {
            let total = 2 * significand + unit;
            let left = total - (floor + up) * (2 * unit);
            assert(total == (floor + up) * (2 * unit) + left);
            assert(left == 2 * rest + unit - up * (2 * unit)) by (nonlinear_arith)
                requires
                    significand == floor * unit + rest,
                    left == 2 * significand + unit - (floor + up) * (2 * unit),
            ;
            assert(up * (2 * unit) == if up == 1 {
                2 * unit
            } else {
                0
            });
            assert(0 <= left < 2 * unit);
            vstd::arithmetic::div_mod::lemma_fundamental_div_mod_converse(
                total as int,
                2 * unit as int,
                (floor + up) as int,
                left as int,
            );
        }
        floor + up
    }
}

impl Real {
    /// The nearest whole number, halves away from zero; nothing stands for no number.
    pub open spec fn nearest_whole(self) -> int {
        if self.not_a_number() {
            0
        } else if self.is_negative() {
            -(self.rounded() as int)
        } else {
            self.rounded() as int
        }
    }

    /// The nearest whole number, held to what a coordinate can carry.
    pub open spec fn nearest_index(self) -> int {
        if self.nearest_whole() < i32::MIN {
            i32::MIN as int
        } else if self.nearest_whole() > i32::MAX {
            i32::MAX as int
        } else {
            self.nearest_whole()
        }
    }

    /// The next whole number that is not below; nothing stands for no number.
    pub open spec fn ceiling(self) -> int {
        if self.not_a_number() {
            0
        } else if self.is_negative() {
            -(self.truncated() as int)
        } else if self.whole() {
            self.truncated() as int
        } else {
            self.truncated() as int + 1
        }
    }

    /// The next whole number that is not below, held to what a coordinate can carry.
    pub open spec fn ceiling_index(self) -> int {
        if self.ceiling() < i32::MIN {
            i32::MIN as int
        } else if self.ceiling() > i32::MAX {
            i32::MAX as int
        } else {
            self.ceiling()
        }
    }

    /// The next coordinate that is not below.
    pub fn to_ceiling_index(self) -> (r: i32)
        ensures
            r == self.ceiling_index(),
    {
        if self.is_nan() {
            return 0;
        }
        let size: u64 = self.truncate();
        if self.bits >= SIGN_WEIGHT {
            if size > 0x8000_0000 {
                i32::MIN
            } else {
                (-(size as i64)) as i32
            }
        } else if size >= 0x7fff_ffff {
            i32::MAX
        } else if self.is_whole() {
            size as i32
        } else {
            size as i32 + 1
        }
    }

    /// The nearest coordinate.
    pub fn to_index(self) -> (r: i32)
        ensures
            r == self.nearest_index(),
    {
        if self.is_nan() {
            return 0;
        }
        let size: u64 = self.round();
        if self.bits >= SIGN_WEIGHT {
            if size > 0x8000_0000 {
                i32::MIN
            } else {
                (-(size as i64)) as i32
            }
        } else if size > 0x7fff_ffff {
            i32::MAX
        } else {
            size as i32
        }
    }
}

}
