//! Content balancing across skill dimensions.

use crate::meta::SkillDimension;
use crate::number::Real;
use crate::rounding::{law_shares_keep_order, SIGNIFICAND_BOUND};
use crate::table::TextMap;
use vstd::prelude::*;

verus! {

/// The number nearest to one fifth: one over the number of dimensions.
pub const FIFTH: u64 = 0x3fc9_9999_9999_999a;

/// The number nearest to one twentieth.
pub const TWENTIETH: u64 = 0x3fa9_9999_9999_999a;

/// The target of a dimension; of several, the last one given.
pub open spec fn target_of(
    targets: Seq<(SkillDimension, Real)>,
    dimension: SkillDimension,
) -> Option<Real>
    decreases targets.len(),
{
    if targets.len() == 0 {
        None
    } else if targets.last().0 == dimension {
        Some(targets.last().1)
    } else {
        target_of(targets.drop_last(), dimension)
    }
}

/// How often items were served under some tags, together.
pub open spec fn served_under(used: Map<Seq<char>, u32>, tags: Seq<Seq<char>>) -> nat
    decreases tags.len(),
{
    if tags.len() == 0 {
        0
    } else {
        served_under(used, tags.drop_last()) + used[tags.last()] as nat
    }
}

/// How often items were served under one tag.
pub open spec fn served_as(used: Map<Seq<char>, u32>, tag: Seq<char>) -> nat {
    if used.contains_key(tag) {
        used[tag] as nat
    } else {
        0
    }
}

/// Whether a dimension may still be served: it has no target, or its share of
/// what was served is at most the target with the tolerance, each a double.
pub open spec fn under_quota(
    targets: Seq<(SkillDimension, Real)>,
    tolerance: Real,
    dimension: SkillDimension,
    served: nat,
    total: nat,
) -> bool {
    match target_of(targets, dimension) {
        None => true,
        Some(target) => Real::from_count(served).over(Real::from_count(total)).at_most(
            target.plus(tolerance),
        ),
    }
}

/// Target mix of skill dimensions across a session.
#[derive(Debug)]
pub struct Blueprint {
    targets: Vec<(SkillDimension, Real)>,
    tolerance: Real,
}

/// A blueprint, by value.
pub struct BlueprintView {
    /// Target proportions.
    pub targets: Seq<(SkillDimension, Real)>,
    /// Allowed overshoot.
    pub tolerance: Real,
}

impl BlueprintView {
    /// Whether an item covering `dimensions` may still be served.
    pub open spec fn permits(
        self,
        dimensions: Seq<SkillDimension>,
        used: Map<Seq<char>, u32>,
        total: nat,
    ) -> bool {
        ||| self.targets.len() == 0
        ||| dimensions.len() == 0
        ||| total == 0
        ||| exists|i: int|
            0 <= i < dimensions.len() && #[trigger] under_quota(
                self.targets,
                self.tolerance,
                dimensions[i],
                served_as(used, dimensions[i].spelling()),
                total,
            )
    }
}

impl View for Blueprint {
    type V = BlueprintView;

    closed spec fn view(&self) -> BlueprintView {
        BlueprintView { targets: self.targets@, tolerance: self.tolerance }
    }
}

impl Clone for Blueprint {
    fn clone(&self) -> (r: Self)
        ensures
            r@ == self@,
    {
        let mut targets: Vec<(SkillDimension, Real)> = Vec::new();
        for i in 0..self.targets.len()
            invariant
                targets@ == self.targets@.take(i as int),
        {
            targets.push(self.targets[i]);
        }
        assert(targets@ =~= self.targets@);
        Blueprint { targets, tolerance: self.tolerance }
    }
}

/// How often items were served in all, by tag.
pub fn total_served(used: &TextMap<u32>) -> (r: u128)
    ensures
        r == served_under(used@, used.keys()),
{
    let mut total: u128 = 0;
    let count: usize = used.len();
    assert(used.keys().take(0) =~= Seq::empty());
    for i in 0..count
        invariant
            count == used.keys().len(),
            total == served_under(used@, used.keys().take(i as int)),
            total <= i * u32::MAX,
    {
        assert(used.keys().take(i + 1).drop_last() =~= used.keys().take(i as int));
        assert(i * u32::MAX <= usize::MAX * u32::MAX) by (nonlinear_arith)
            requires
                i <= usize::MAX,
        ;
        let value: u32 = *used.value_at(i);
        total = total + value as u128;
        assert((i + 1) * u32::MAX == i * u32::MAX + u32::MAX) by (nonlinear_arith);
    }
    assert(used.keys().take(count as int) =~= used.keys());
    total
}

impl Blueprint {
    /// No constraint: every item is eligible.
    pub fn unconstrained() -> (r: Self)
        ensures
            r@.targets == Seq::<(SkillDimension, Real)>::empty(),
            r@.tolerance == (Real { bits: 0 }),
    {
        Blueprint { targets: Vec::new(), tolerance: Real::zero() }
    }

    /// Equal share for every dimension.
    pub fn uniform() -> (r: Self)
        ensures
            forall|dimension: SkillDimension| #[trigger]
                target_of(r@.targets, dimension) == Some(
                Real { bits: FIFTH },
            ),
            r@.targets.len() == 5,
            r@.tolerance == (Real { bits: TWENTIETH }),
    {
        let share = Real { bits: FIFTH };
        let mut targets: Vec<(SkillDimension, Real)> = Vec::new();
        let all = SkillDimension::all();
        targets.push((all[0], share));
        targets.push((all[1], share));
        targets.push((all[2], share));
        targets.push((all[3], share));
        targets.push((all[4], share));
        proof {
            let t = targets@;
            assert forall|dimension: SkillDimension| #[trigger]
                target_of(t, dimension) matches Some(found) && found == share by {
                reveal_with_fuel(target_of, 6);
                assert(t.drop_last().last() == t[3]);
                assert(t.drop_last().drop_last().last() == t[2]);
                assert(t.drop_last().drop_last().drop_last().last() == t[1]);
                assert(t.drop_last().drop_last().drop_last().drop_last().last() == t[0]);
            }
        }
        Self::new(targets)
    }

    /// Explicit target proportions. They need not sum to one: each is compared
    /// against the observed proportion independently.
    pub fn new(targets: Vec<(SkillDimension, Real)>) -> (r: Self)
        ensures
            r@.targets == targets@,
            r@.tolerance == (Real { bits: TWENTIETH }),
    {
        Blueprint { targets, tolerance: Real { bits: TWENTIETH } }
    }

    /// Allowed overshoot before a dimension is considered saturated.
    pub fn with_tolerance(self, tolerance: Real) -> (r: Self)
        ensures
            r@ == (BlueprintView { tolerance, ..self@ }),
    {
        Blueprint { targets: self.targets, tolerance }
    }

    /// Whether no constraint is active.
    pub fn is_unconstrained(&self) -> (r: bool)
        ensures
            r == (self@.targets.len() == 0),
    {
        self.targets.len() == 0
    }

    fn target(&self, dimension: SkillDimension) -> (r: Option<Real>)
        ensures
            r == target_of(self@.targets, dimension),
    {
        let mut i: usize = self.targets.len();
        assert(self.targets@.take(i as int) =~= self.targets@);
        while i > 0
            invariant
                i <= self.targets@.len(),
                target_of(self.targets@.take(i as int), dimension) == target_of(
                    self.targets@,
                    dimension,
                ),
            decreases i,
        {
            i = i - 1;
            assert(self.targets@.take(i + 1).drop_last() =~= self.targets@.take(i as int));
            if self.targets[i].0 == dimension {
                return Some(self.targets[i].1);
            }
        }
        None
    }

    /// Whether an item covering `dimensions` may still be served, after items
    /// were served under the tags of `used`.
    ///
    /// An item qualifies if at least one of its dimensions is under quota.
    /// Requiring all of them would deadlock: a multi-dimension item would become
    /// unservable as soon as any single dimension filled up.
    pub fn allows(&self, dimensions: &[SkillDimension], used: &TextMap<u32>) -> (r: bool)
        requires
            served_under(used@, used.keys()) <= u32::MAX,
        ensures
            r == self@.permits(dimensions@, used@, served_under(used@, used.keys())),
    {
        let sum: u128 = total_served(used);
        let total: u32 = sum as u32;
        if self.targets.len() == 0 || dimensions.len() == 0 || total == 0 {
            return true;
        }
        for i in 0..dimensions.len()
            invariant
                total == served_under(used@, used.keys()),
                forall|j: int|
                    0 <= j < i ==> !#[trigger] under_quota(
                        self@.targets,
                        self@.tolerance,
                        dimensions@[j],
                        served_as(used@, dimensions@[j].spelling()),
                        total as nat,
                    ),
        {
            let dimension = dimensions[i];
            let served: u32 = match used.get(dimension.as_str()) {
                Some(count) => *count,
                None => 0,
            };
            let within = match self.target(dimension) {
                None => true,
                Some(target) => Real::of_count(served as u64).divide(
                    Real::of_count(total as u64),
                ).le(target.sum(self.tolerance)),
            };
            if within {
                assert(under_quota(
                    self@.targets,
                    self@.tolerance,
                    dimensions@[i as int],
                    served_as(used@, dimensions@[i as int].spelling()),
                    total as nat,
                ));
                return true;
            }
        }
        false
    }
}

/// Nothing is blocked before anything has been served.
pub proof fn law_blueprint_blocks_nothing_at_first(
    blueprint: BlueprintView,
    dimensions: Seq<SkillDimension>,
    used: Map<Seq<char>, u32>,
)
    ensures
        blueprint.permits(dimensions, used, 0),
{
}

/// An item of several dimensions may be served wherever an item of one of them
/// alone may be.
pub proof fn law_any_dimension_under_quota_suffices(
    blueprint: BlueprintView,
    dimensions: Seq<SkillDimension>,
    i: int,
    used: Map<Seq<char>, u32>,
    total: nat,
)
    requires
        0 <= i < dimensions.len(),
        blueprint.permits(seq![dimensions[i]], used, total),
    ensures
        blueprint.permits(dimensions, used, total),
{
    if blueprint.targets.len() > 0 && total > 0 {
        let one = seq![dimensions[i]];
        let j = choose|j: int|
            0 <= j < one.len() && #[trigger] under_quota(
                blueprint.targets,
                blueprint.tolerance,
                one[j],
                served_as(used, one[j].spelling()),
                total,
            );
        assert(one[j] == dimensions[i]);
        assert(under_quota(
            blueprint.targets,
            blueprint.tolerance,
            dimensions[i],
            served_as(used, dimensions[i].spelling()),
            total,
        ));
    }
}

/// A dimension that everything was served under is saturated: an item of it alone is
/// withheld, if its target with the tolerance is below one.
pub proof fn law_a_saturated_dimension_is_withheld(
    blueprint: BlueprintView,
    dimension: SkillDimension,
    target: Real,
    used: Map<Seq<char>, u32>,
    total: nat,
)
    requires
        target_of(blueprint.targets, dimension) == Some(target),
        served_as(used, dimension.spelling()) == total,
        0 < total <= SIGNIFICAND_BOUND,
        target.plus(blueprint.tolerance).below(Real { bits: 0x3ff0_0000_0000_0000 }),
    ensures
        !blueprint.permits(seq![dimension], used, total),
{
    law_shares_keep_order(total, total, total);
    assert(blueprint.targets.len() > 0);
    let one = seq![dimension];
    assert forall|i: int| 0 <= i < one.len() implies !(#[trigger] under_quota(
        blueprint.targets,
        blueprint.tolerance,
        one[i],
        served_as(used, one[i].spelling()),
        total,
    )) by {
        assert(one[i] == dimension);
    }
}

/// A dimension without a target is never what withholds an item.
pub proof fn law_a_dimension_without_a_target_is_free(
    blueprint: BlueprintView,
    dimensions: Seq<SkillDimension>,
    i: int,
    used: Map<Seq<char>, u32>,
    total: nat,
)
    requires
        0 <= i < dimensions.len(),
        forall|k: int| 0 <= k < blueprint.targets.len() ==> (#[trigger] blueprint.targets[k]).0 != dimensions[i],
    ensures
        blueprint.permits(dimensions, used, total),
{
    lemma_no_target(blueprint.targets, dimensions[i]);
    assert(under_quota(
        blueprint.targets,
        blueprint.tolerance,
        dimensions[i],
        served_as(used, dimensions[i].spelling()),
        total,
    ));
}

proof fn lemma_no_target(targets: Seq<(SkillDimension, Real)>, dimension: SkillDimension)
    requires
        forall|k: int| 0 <= k < targets.len() ==> (#[trigger] targets[k]).0 != dimension,
    ensures
        target_of(targets, dimension) is None,
    decreases targets.len(),
{
    if targets.len() > 0 {
        assert(targets[targets.len() - 1] == targets.last());
        assert forall|k: int| 0 <= k < targets.drop_last().len() implies (
        #[trigger] targets.drop_last()[k]).0 != dimension by {
            assert(targets.drop_last()[k] == targets[k]);
        }
        lemma_no_target(targets.drop_last(), dimension);
    }
}

/// A dimension that may still be served may be where it was served less often.
pub proof fn law_rarer_dimensions_stay_open(
    blueprint: BlueprintView,
    dimension: SkillDimension,
    rarer: nat,
    served: nat,
    total: nat,
)
    requires
        rarer <= served <= total <= SIGNIFICAND_BOUND,
        total > 0,
        under_quota(blueprint.targets, blueprint.tolerance, dimension, served, total),
    ensures
        under_quota(blueprint.targets, blueprint.tolerance, dimension, rarer, total),
{
    law_shares_keep_order(rarer, served, total);
}


/// A dimension is open up to its quota and at it: an item of it is permitted while the share served
/// under it is not above the target with the tolerance.
pub proof fn law_a_dimension_is_open_up_to_its_quota(
    blueprint: BlueprintView,
    dimensions: Seq<SkillDimension>,
    i: int,
    target: Real,
    used: Map<Seq<char>, u32>,
    total: nat,
)
    requires
        0 <= i < dimensions.len(),
        target_of(blueprint.targets, dimensions[i]) == Some(target),
        Real::from_count(served_as(used, dimensions[i].spelling())).over(Real::from_count(total)).at_most(
            target.plus(blueprint.tolerance),
        ),
    ensures
        blueprint.permits(dimensions, used, total),
{
    assert(under_quota(
        blueprint.targets,
        blueprint.tolerance,
        dimensions[i],
        served_as(used, dimensions[i].spelling()),
        total,
    ));
}

/// The last target given for a dimension is the one that holds, and targets of other dimensions do
/// not bear on it.
pub proof fn law_the_last_target_holds(
    targets: Seq<(SkillDimension, Real)>,
    dimension: SkillDimension,
    other: SkillDimension,
    target: Real,
)
    ensures
        target_of(targets.push((dimension, target)), dimension) == Some(target),
        other != dimension ==> target_of(targets.push((dimension, target)), other) == target_of(
            targets,
            other,
        ),
        target_of(Seq::empty(), dimension) is None,
{
    assert(targets.push((dimension, target)).drop_last() =~= targets);
}

}
