//! Between raw scores and what the adaptive engine takes for success.
//!
//! The engine collapses a response at one half: more is a success. An item's own bar is
//! a threshold, so a raw score is moved, its order kept, until the threshold lies at one
//! half.

use crate::number::{law_clamped_number_lies_in_range, Real, SIGN_WEIGHT};
use crate::rounding::{
    law_encodings_order_numbers, law_nearest_is_of_the_fraction, law_numbers_are_not_rounded,
    law_rounding_keeps_order, nearest,
};
use vstd::arithmetic::power2::{lemma2_to64, lemma_pow2_adds, lemma_pow2_pos, pow2};
use vstd::prelude::*;

verus! {

/// One half, where the engine decides.
pub open spec fn boundary() -> Real {
    Real { bits: 0x3fe0_0000_0000_0000 }
}

/// One, the largest score.
pub open spec fn full() -> Real {
    Real { bits: 0x3ff0_0000_0000_0000 }
}

/// The distance from one to the next number.
pub const EPSILON: u64 = 0x3cb0_0000_0000_0000;

/// One less that distance.
pub const ONE_LESS_EPSILON: u64 = 0x3fef_ffff_ffff_fffe;

/// A threshold kept from both ends of the scale, where it would divide by zero.
pub open spec fn threshold(tau: Real) -> Real {
    tau.clamped(Real { bits: EPSILON }, Real { bits: ONE_LESS_EPSILON })
}

/// A score kept on the scale.
pub open spec fn scored(score: Real) -> Real {
    score.clamped(Real { bits: 0 }, full())
}

/// A score moved by a threshold, before it is kept on the scale.
pub open spec fn moved(raw: Real, bar: Real) -> Real {
    if raw.at_most(bar) {
        boundary().times(raw.over(bar))
    } else {
        boundary().plus(boundary().times(raw.minus(bar)).over(full().minus(bar)))
    }
}

/// A raw score with its threshold moved to one half.
pub open spec fn remapped(raw_score: Real, tau: Real) -> Real {
    scored(moved(scored(raw_score), threshold(tau)))
}

/// Map a raw score so that it is above one half where it was above the threshold, its
/// order kept: nothing to nothing, the threshold to one half, one to one.
pub fn remap_for_arona(raw_score: Real, tau: Real) -> (r: Real)
    ensures
        r == remapped(raw_score, tau),
{
    let bar = tau.clamp(Real { bits: EPSILON }, Real { bits: ONE_LESS_EPSILON });
    let raw = raw_score.clamp(Real::zero(), Real::one());
    let mapped = if raw.le(bar) {
        Real::half().multiply(raw.divide(bar))
    } else {
        Real::half().sum(
            Real::half().multiply(raw.subtract(bar)).divide(Real::one().subtract(bar)),
        )
    };
    mapped.clamp(Real::zero(), Real::one())
}

/// The raw score that a remapped one stands for, before it is kept on the scale.
pub open spec fn moved_back(mapped: Real, bar: Real) -> Real {
    if mapped.at_most(boundary()) {
        mapped.over(boundary()).times(bar)
    } else {
        bar.plus(mapped.minus(boundary()).over(boundary()).times(full().minus(bar)))
    }
}

/// The raw score that a remapped one stands for, for reporting it in raw terms.
pub fn raw_from_remapped(remapped: Real, tau: Real) -> (r: Real)
    ensures
        r == scored(moved_back(scored(remapped), threshold(tau))),
{
    let bar = tau.clamp(Real { bits: EPSILON }, Real { bits: ONE_LESS_EPSILON });
    let mapped = remapped.clamp(Real::zero(), Real::one());
    let raw = if mapped.le(Real::half()) {
        mapped.divide(Real::half()).multiply(bar)
    } else {
        bar.sum(
            mapped.subtract(Real::half()).divide(Real::half()).multiply(Real::one().subtract(bar)),
        )
    };
    raw.clamp(Real::zero(), Real::one())
}

/// Whether a raw score counts as mastery, as the engine will conclude from the remapped
/// one.
pub fn is_mastered(raw_score: Real, tau: Real) -> (r: bool)
    ensures
        r == boundary().below(remapped(raw_score, tau)),
{
    Real::half().lt(remap_for_arona(raw_score, tau))
}

proof fn lemma_landmarks()
    ensures
        boundary().steps() == pow2(1073),
        full().steps() == pow2(1074),
        nearest(pow2(1073), 1) == boundary(),
        nearest(pow2(1074), 1) == full(),
        nearest(0, 1) == (Real { bits: 0 }),
        pow2(1074) == 2 * pow2(1073),
        pow2(1073) > 0,
        (Real { bits: 0 }).steps() == 0,
{
    lemma2_to64();
    lemma_pow2_pos(1073);
    lemma_pow2_adds(1, 1073);
    lemma_pow2_adds(52, 1021);
    lemma_pow2_adds(52, 1022);
    vstd::arithmetic::power2::lemma2_to64_rest();
    law_numbers_are_not_rounded(boundary());
    law_numbers_are_not_rounded(full());
    law_numbers_are_not_rounded(Real { bits: 0 });
}

/// Whether a number is a bar: a threshold kept from both ends of the scale.
spec fn is_bar(bar: Real) -> bool {
    EPSILON <= bar.bits <= ONE_LESS_EPSILON
}

proof fn lemma_share(x: Real, bar: Real)
    requires
        is_bar(bar),
        x.bits <= bar.bits,
    ensures
        x.over(bar) == nearest(x.steps() * pow2(1074), bar.steps()),
        x.over(bar).bits <= full().bits,
        x.bits == bar.bits ==> x.over(bar) == full(),
        bar.steps() > 0,
{
    reveal(Real::over);
    lemma_landmarks();
    let zero = Real { bits: 0 };
    law_encodings_order_numbers(x, bar);
    law_encodings_order_numbers(bar, zero);
    let (n, d, one) = (x.steps(), bar.steps(), pow2(1074));
    assert((n * one) * 1 <= one * d) by (nonlinear_arith)
        requires
            n <= d,
    ;
    law_rounding_keeps_order(n * one, d, one, 1);
    if x.bits == bar.bits {
        assert((n * one) * 1 == one * d) by (nonlinear_arith)
            requires
                n == d,
        ;
        law_nearest_is_of_the_fraction(n * one, d, one, 1);
    }
}

proof fn lemma_half_of(x: Real)
    requires
        x.bits <= full().bits,
    ensures
        boundary().times(x) == nearest(pow2(1073) * x.steps(), pow2(1074)),
        boundary().times(x).bits <= boundary().bits,
        x == full() ==> boundary().times(x) == boundary(),
{
    reveal(Real::times);
    lemma_landmarks();
    law_encodings_order_numbers(x, full());
    let (half, n, one) = (pow2(1073), x.steps(), pow2(1074));
    assert((half * n) * 1 <= half * one) by (nonlinear_arith)
        requires
            n <= one,
    ;
    law_rounding_keeps_order(half * n, one, half, 1);
    if x == full() {
        law_nearest_is_of_the_fraction(half * n, one, half, 1);
    }
}

proof fn lemma_halves_keep_order(x: Real, y: Real)
    requires
        x.bits <= y.bits <= full().bits,
    ensures
        boundary().times(x).bits <= boundary().times(y).bits,
{
    lemma_half_of(x);
    lemma_half_of(y);
    lemma_landmarks();
    law_encodings_order_numbers(x, y);
    let (half, one) = (pow2(1073), pow2(1074));
    assert((half * x.steps()) * one <= (half * y.steps()) * one) by (nonlinear_arith)
        requires
            x.steps() <= y.steps(),
    ;
    law_rounding_keeps_order(half * x.steps(), one, half * y.steps(), one);
}

/// Up to the bar, what is moved keeps its order, and reaches one half at the bar.
proof fn lemma_up_to_the_bar(x: Real, y: Real, bar: Real)
    requires
        is_bar(bar),
        x.bits <= y.bits <= bar.bits,
    ensures
        moved(x, bar).bits <= moved(y, bar).bits <= boundary().bits,
        y.bits == bar.bits ==> moved(y, bar) == boundary(),
        x.bits == 0 ==> moved(x, bar).bits == 0,
{
    lemma_share(x, bar);
    lemma_share(y, bar);
    lemma_landmarks();
    law_encodings_order_numbers(x, y);
    let (d, one) = (bar.steps(), pow2(1074));
    assert((x.steps() * one) * d <= (y.steps() * one) * d) by (nonlinear_arith)
        requires
            x.steps() <= y.steps(),
    ;
    law_rounding_keeps_order(x.steps() * one, d, y.steps() * one, d);
    lemma_halves_keep_order(x.over(bar), y.over(bar));
    lemma_half_of(x.over(bar));
    lemma_half_of(y.over(bar));
    if x.bits == 0 {
        let (n, half) = (x.steps(), pow2(1073));
        assert(n * one == 0 && 0 * d == 0 && half * n == 0 && 0 * one == 0) by (nonlinear_arith)
            requires
                n == 0,
        ;
        law_nearest_is_of_the_fraction(n * one, d, 0, 1);
        law_nearest_is_of_the_fraction(half * n, one, 0, 1);
    }
}

proof fn lemma_above(x: Real, bar: Real)
    requires
        is_bar(bar),
        bar.bits <= x.bits <= full().bits,
    ensures
        x.minus(bar) == nearest((x.steps() - bar.steps()) as nat, 1),
        x.minus(bar).bits <= full().minus(bar).bits <= full().bits,
        full().minus(bar).bits >= EPSILON,
{
    reveal(Real::plus);
    lemma_landmarks();
    law_encodings_order_numbers(bar, x);
    law_encodings_order_numbers(x, full());
    let one = pow2(1074);
    let (n, d) = (x.steps(), bar.steps());
    let left = (one - d) as nat;
    assert(bar.opposite().signed_steps() == -(d as int));
    assert(x.signed_steps() == n);
    assert(full().signed_steps() == one);
    law_rounding_keeps_order((n - d) as nat, 1, left, 1);
    law_rounding_keeps_order(left, 1, one, 1);
    // The largest bar leaves a step above one.
    let least = Real { bits: EPSILON };
    let most = Real { bits: ONE_LESS_EPSILON };
    lemma2_to64();
    vstd::arithmetic::power2::lemma2_to64_rest();
    lemma_pow2_adds(52, 970);
    lemma_pow2_adds(53, 1021);
    lemma_pow2_adds(1, 1021);
    assert(least.steps() == pow2(1022));
    assert(most.steps() == one - pow2(1022)) by {
        assert(most.significand() == 0x20_0000_0000_0000 - 2);
        assert(most.scale() + 1074 == 1021);
    }
    law_encodings_order_numbers(bar, most);
    law_numbers_are_not_rounded(least);
    law_rounding_keeps_order(least.steps(), 1, left, 1);
}

/// What is left above a bar can be halved exactly.
proof fn lemma_exact_half(u: Real)
    requires
        EPSILON <= u.bits <= full().bits,
    ensures
        2 * boundary().times(u).steps() == u.steps(),
        u.steps() > 0,
{
    lemma_half_of(u);
    lemma_landmarks();
    let v = Real { bits: (u.bits - 0x10_0000_0000_0000) as u64 };
    assert(v.exponent() == u.exponent() - 1);
    assert(v.significand() == u.significand() && v.scale() == u.scale() - 1);
    lemma2_to64();
    lemma_pow2_adds(1, (v.scale() + 1074) as nat);
    let p = pow2((v.scale() + 1074) as nat);
    lemma_pow2_pos((v.scale() + 1074) as nat);
    let s = u.significand();
    assert(2 * (s * p) == s * (2 * p) && s * p > 0) by (nonlinear_arith)
        requires
            s > 0,
            p > 0,
    ;
    assert(u.steps() == 2 * v.steps());
    law_numbers_are_not_rounded(v);
    let (half, one) = (pow2(1073), pow2(1074));
    assert((half * u.steps()) * 1 == v.steps() * one) by (nonlinear_arith)
        requires
            u.steps() == 2 * v.steps(),
            one == 2 * half,
    ;
    law_nearest_is_of_the_fraction(half * u.steps(), one, v.steps(), 1);
}

/// The part of a score above the bar, as a part of one half.
spec fn upper(x: Real, bar: Real) -> Real {
    boundary().times(x.minus(bar)).over(full().minus(bar))
}

proof fn lemma_part_of_the_rest(h: Real, u: Real)
    requires
        h.bits <= boundary().bits,
        EPSILON <= u.bits <= full().bits,
    ensures
        h.over(u) == nearest(h.steps() * pow2(1074), u.steps()),
        u.steps() > 0,
{
    lemma_exact_half(u);
    reveal(Real::over);
}

proof fn lemma_parts_keep_order(a: Real, b: Real, u: Real)
    requires
        a.bits <= b.bits <= boundary().bits,
        EPSILON <= u.bits <= full().bits,
    ensures
        a.over(u).bits <= b.over(u).bits,
{
    lemma_part_of_the_rest(a, u);
    lemma_part_of_the_rest(b, u);
    law_encodings_order_numbers(a, b);
    let (d, one) = (u.steps(), pow2(1074));
    assert((a.steps() * one) * d <= (b.steps() * one) * d) by (nonlinear_arith)
        requires
            a.steps() <= b.steps(),
    ;
    law_rounding_keeps_order(a.steps() * one, d, b.steps() * one, d);
}

/// Half of the rest is half of it.
proof fn lemma_half_of_the_rest(u: Real)
    requires
        EPSILON <= u.bits <= full().bits,
    ensures
        boundary().times(u).over(u) == boundary(),
{
    lemma_landmarks();
    lemma_half_of(u);
    lemma_exact_half(u);
    let h = boundary().times(u);
    lemma_part_of_the_rest(h, u);
    let (d, one, half) = (u.steps(), pow2(1074), pow2(1073));
    assert((h.steps() * one) * 1 == half * d) by (nonlinear_arith)
        requires
            2 * h.steps() == d,
            one == 2 * half,
    ;
    law_nearest_is_of_the_fraction(h.steps() * one, d, half, 1);
}

proof fn lemma_upper(x: Real, y: Real, bar: Real)
    requires
        is_bar(bar),
        bar.bits <= x.bits <= y.bits <= full().bits,
    ensures
        upper(x, bar).bits <= upper(y, bar).bits <= boundary().bits,
        y == full() ==> upper(y, bar) == boundary(),
{
    lemma_above(x, bar);
    lemma_above(y, bar);
    law_encodings_order_numbers(x, y);
    law_encodings_order_numbers(bar, x);
    law_rounding_keeps_order((x.steps() - bar.steps()) as nat, 1, (y.steps() - bar.steps()) as nat, 1);
    let u = full().minus(bar);
    let (dx, dy) = (x.minus(bar), y.minus(bar));
    lemma_halves_keep_order(dx, dy);
    lemma_halves_keep_order(dy, u);
    lemma_half_of(u);
    lemma_parts_keep_order(boundary().times(dx), boundary().times(dy), u);
    lemma_parts_keep_order(boundary().times(dy), boundary().times(u), u);
    lemma_half_of_the_rest(u);
}

/// Above the bar, what is moved keeps its order, lies above one half, and reaches one.
proof fn lemma_from_the_bar(x: Real, y: Real, bar: Real)
    requires
        is_bar(bar),
        bar.bits < x.bits <= y.bits <= full().bits,
    ensures
        boundary().bits <= moved(x, bar).bits <= moved(y, bar).bits <= full().bits,
        y == full() ==> moved(y, bar) == full(),
{
    lemma_landmarks();
    lemma_upper(x, y, bar);
    let (wx, wy) = (upper(x, bar), upper(y, bar));
    law_encodings_order_numbers(wx, wy);
    law_encodings_order_numbers(wy, boundary());
    reveal(Real::plus);
    let half = pow2(1073);
    assert(boundary().plus(wx) == nearest(half + wx.steps(), 1));
    assert(boundary().plus(wy) == nearest(half + wy.steps(), 1));
    law_rounding_keeps_order(half, 1, half + wx.steps(), 1);
    law_rounding_keeps_order(half + wx.steps(), 1, half + wy.steps(), 1);
    law_rounding_keeps_order(half + wy.steps(), 1, 2 * half, 1);
}

proof fn lemma_moved(x: Real, y: Real, bar: Real)
    requires
        is_bar(bar),
        x.bits <= y.bits <= full().bits,
    ensures
        moved(x, bar).bits <= moved(y, bar).bits <= full().bits,
{
    if y.bits <= bar.bits {
        lemma_up_to_the_bar(x, y, bar);
    } else if x.bits > bar.bits {
        lemma_from_the_bar(x, y, bar);
    } else {
        lemma_up_to_the_bar(x, x, bar);
        lemma_from_the_bar(y, y, bar);
    }
}

/// A score that is zero with a sign is moved to zero with a sign.
proof fn lemma_negative_zero(bar: Real)
    requires
        is_bar(bar),
    ensures
        moved(Real { bits: SIGN_WEIGHT }, bar) == (Real { bits: SIGN_WEIGHT }),
{
    let x = Real { bits: SIGN_WEIGHT };
    lemma_landmarks();
    lemma_share(bar, bar);
    reveal(Real::over);
    reveal(Real::times);
    let one = pow2(1074);
    assert(x.steps() == 0) by {
        assert(x.significand() == 0);
        assert(0 * pow2((x.scale() + 1074) as nat) == 0);
    }
    assert(0 * one == 0 && 0 * bar.steps() == 0 && pow2(1073) * 0 == 0);
    law_nearest_is_of_the_fraction(0, bar.steps(), 0, 1);
    law_nearest_is_of_the_fraction(0, one, 0, 1);
}

/// Moving scores by a threshold keeps their order.
pub proof fn law_remapping_keeps_order(low: Real, high: Real, tau: Real)
    requires
        low.at_most(high),
        !tau.not_a_number(),
    ensures
        remapped(low, tau).at_most(remapped(high, tau)),
{
    let (x, y, bar) = (scored(low), scored(high), threshold(tau));
    lemma_negative_zero(bar);
    if x.is_negative() {
        if !y.is_negative() {
            lemma_moved(y, y, bar);
        }
    } else if y.is_negative() {
        assert(x.bits == 0);
        lemma_up_to_the_bar(x, x, bar);
    } else {
        lemma_moved(x, y, bar);
    }
}

/// A moved score lies on the scale, whatever the raw one was.
pub proof fn law_a_remapped_score_lies_on_the_scale(raw_score: Real, tau: Real)
    requires
        !raw_score.not_a_number(),
        !tau.not_a_number(),
    ensures
        (Real { bits: 0 }).at_most(remapped(raw_score, tau)),
        remapped(raw_score, tau).at_most(full()),
{
    law_remapping_keeps_order(raw_score, raw_score, tau);
    law_clamped_number_lies_in_range(
        moved(scored(raw_score), threshold(tau)),
        Real { bits: 0 },
        full(),
    );
}

/// Nothing is moved to nothing, one to one, and a threshold on the scale to one half.
pub proof fn law_ends_and_threshold_are_fixed(tau: Real)
    requires
        !tau.not_a_number(),
    ensures
        remapped(Real { bits: 0 }, tau) == (Real { bits: 0 }),
        remapped(full(), tau) == full(),
        threshold(tau) == tau ==> remapped(tau, tau) == boundary(),
{
    let bar = threshold(tau);
    lemma_up_to_the_bar(Real { bits: 0 }, bar, bar);
    lemma_from_the_bar(full(), full(), bar);
}

/// A score that is not above its threshold is no mastery.
pub proof fn law_mastery_lies_above_the_threshold(raw_score: Real, tau: Real)
    requires
        threshold(tau) == tau,
        raw_score.at_most(tau),
    ensures
        !boundary().below(remapped(raw_score, tau)),
{
    law_ends_and_threshold_are_fixed(tau);
    law_remapping_keeps_order(raw_score, tau, tau);
}


/// Whoever reaches the threshold of an item stands at least where mastery is decided.
pub proof fn law_reaching_the_threshold_is_enough(raw_score: Real, tau: Real)
    requires
        threshold(tau) == tau,
        tau.at_most(raw_score),
    ensures
        (Real { bits: 0x3fe0_0000_0000_0000 }).at_most(remapped(raw_score, tau)),
{
    law_ends_and_threshold_are_fixed(tau);
    law_remapping_keeps_order(tau, raw_score, tau);
}

}
