//! Predicting an item's difficulty before anyone has attempted it.

use crate::features::ChallengeFeatures;
use crate::number::{Real, INFINITE_MAGNITUDE};
use crate::rounding::{
    law_adding_stays_a_number, law_equal_values_rank_alike, law_products_keep_order,
    law_sums_keep_order, law_whole_numbers_are_added_exactly,
    law_whole_numbers_are_multiplied_exactly,
};
use vstd::arithmetic::power2::pow2;
use vstd::prelude::*;

verus! {

/// The lower end of the usable difficulty scale, minus three.
pub open spec fn difficulty_floor() -> Real {
    Real { bits: 0xc008_0000_0000_0000 }
}

/// The upper end of the usable difficulty scale, three.
pub open spec fn difficulty_ceiling() -> Real {
    Real { bits: 0x4008_0000_0000_0000 }
}

/// A linear difficulty model: an intercept and one coefficient per feature.
///
/// The prior's numbers are expert judgement, not measurements. Every item they
/// place enters the bank provisionally, and is expected to be recalibrated from
/// response data.
#[derive(Clone, Copy, Debug, PartialEq, Eq, Structural)]
pub struct DifficultyModel {
    /// Intercept.
    pub intercept: Real,
    /// Coefficient on the logarithm of the removal count.
    pub removal_volume: Real,
    /// Coefficient on the target's boundary fraction.
    pub boundary_ratio: Real,
    /// Coefficient on left/right asymmetry.
    pub asymmetry: Real,
    /// Coefficient on reach demand.
    pub reach_strain: Real,
    /// Coefficient on proximity to the head.
    pub head_proximity: Real,
}

impl DifficultyModel {
    /// The coefficients used until there is enough response data to fit real
    /// ones: -5, 0.30, 1.10, 0.90, 1.40 and 1.70.
    pub open spec fn prior() -> DifficultyModel {
        DifficultyModel {
            intercept: Real { bits: 0xc014_0000_0000_0000 },
            removal_volume: Real { bits: 0x3fd3_3333_3333_3333 },
            boundary_ratio: Real { bits: 0x3ff1_9999_9999_999a },
            asymmetry: Real { bits: 0x3fec_cccc_cccc_cccd },
            reach_strain: Real { bits: 0x3ff6_6666_6666_6666 },
            head_proximity: Real { bits: 0x3ffb_3333_3333_3333 },
        }
    }

    /// The coefficients used until there is enough response data to fit real
    /// ones.
    pub fn expert_prior() -> (r: Self)
        ensures
            r == DifficultyModel::prior(),
    {
        DifficultyModel {
            intercept: Real { bits: 0xc014_0000_0000_0000 },
            removal_volume: Real { bits: 0x3fd3_3333_3333_3333 },
            boundary_ratio: Real { bits: 0x3ff1_9999_9999_999a },
            asymmetry: Real { bits: 0x3fec_cccc_cccc_cccd },
            reach_strain: Real { bits: 0x3ff6_6666_6666_6666 },
            head_proximity: Real { bits: 0x3ffb_3333_3333_3333 },
        }
    }

    /// The difficulty predicted for features: the intercept and the weighted features,
    /// held to the usable scale.
    pub open spec fn predicted(self, features: ChallengeFeatures) -> Real {
        self.intercept.plus(self.removal_volume.times(features.removal_volume)).plus(
            self.boundary_ratio.times(features.boundary_ratio),
        ).plus(self.asymmetry.times(features.asymmetry)).plus(
            self.reach_strain.times(features.reach_strain),
        ).plus(self.head_proximity.times(features.head_proximity)).clamped(
            difficulty_floor(),
            difficulty_ceiling(),
        )
    }

    /// Predict difficulty from a feature vector.
    pub fn predict_features(&self, features: &ChallengeFeatures) -> (r: Real)
        ensures
            r == self.predicted(*features),
    {
        place_on_scale(
            self.intercept.sum(self.removal_volume.multiply(features.removal_volume)).sum(
                self.boundary_ratio.multiply(features.boundary_ratio),
            ).sum(self.asymmetry.multiply(features.asymmetry)).sum(
                self.reach_strain.multiply(features.reach_strain),
            ).sum(self.head_proximity.multiply(features.head_proximity)),
        )
    }

    /// Coefficients in the order of a feature vector.
    pub fn weights(&self) -> (r: [Real; 5])
        ensures
            r@ == seq![
                self.removal_volume,
                self.boundary_ratio,
                self.asymmetry,
                self.reach_strain,
                self.head_proximity,
            ],
    {
        [
            self.removal_volume,
            self.boundary_ratio,
            self.asymmetry,
            self.reach_strain,
            self.head_proximity,
        ]
    }
}

impl Default for DifficultyModel {
    fn default() -> (r: Self)
        ensures
            r == DifficultyModel::prior(),
    {
        DifficultyModel::expert_prior()
    }
}

/// Hold a weighted sum of features to the usable scale: outside of it, an item
/// could never be validated.
pub fn place_on_scale(sum: Real) -> (r: Real)
    ensures
        r == sum.clamped(difficulty_floor(), difficulty_ceiling()),
{
    sum.clamp(Real { bits: 0xc008_0000_0000_0000 }, Real { bits: 0x4008_0000_0000_0000 })
}

/// A predicted difficulty lies on the usable scale, whatever the features.
pub proof fn law_predictions_stay_on_the_scale(sum: Real)
    requires
        !sum.not_a_number(),
    ensures
        difficulty_floor().at_most(sum.clamped(difficulty_floor(), difficulty_ceiling())),
        sum.clamped(difficulty_floor(), difficulty_ceiling()).at_most(difficulty_ceiling()),
{
}

/// The scale keeps the order of two predictions.
pub proof fn law_the_scale_keeps_order(easier: Real, harder: Real)
    requires
        easier.at_most(harder),
    ensures
        easier.clamped(difficulty_floor(), difficulty_ceiling()).at_most(
            harder.clamped(difficulty_floor(), difficulty_ceiling()),
        ),
{
}

/// Whether features are ones that a challenge can have.
pub open spec fn ordinary(features: ChallengeFeatures) -> bool {
    let plain = |x: Real| x.finite() && !x.is_negative();
    &&& plain(features.removal_volume)
    &&& plain(features.boundary_ratio)
    &&& plain(features.asymmetry)
    &&& plain(features.reach_strain)
    &&& plain(features.head_proximity)
}

/// Whether a model counts every feature as making an item harder, as the prior does.
pub open spec fn hardening(model: DifficultyModel) -> bool {
    let plain = |x: Real| x.finite() && !x.is_negative();
    &&& model.intercept.finite()
    &&& plain(model.removal_volume)
    &&& plain(model.boundary_ratio)
    &&& plain(model.asymmetry)
    &&& plain(model.reach_strain)
    &&& plain(model.head_proximity)
}

proof fn lemma_one_more_term(a: Real, b: Real, weight: Real, x: Real, y: Real)
    requires
        a.at_most(b),
        a.rank() > -(INFINITE_MAGNITUDE as int),
        weight.finite() && !weight.is_negative(),
        x.finite() && !x.is_negative(),
        y.finite() && !y.is_negative(),
        x.at_most(y),
    ensures
        a.plus(weight.times(x)).at_most(b.plus(weight.times(y))),
        a.plus(weight.times(x)).rank() > -(INFINITE_MAGNITUDE as int),
{
    law_products_keep_order(weight, x, y);
    law_adding_stays_a_number(a, weight.times(x));
    law_adding_stays_a_number(b, weight.times(y));
    law_sums_keep_order(a, b, weight.times(x), weight.times(y));
}

/// No feature makes an item easier: with no feature smaller, no difficulty is predicted
/// smaller.
pub proof fn law_no_feature_makes_an_item_easier(
    model: DifficultyModel,
    easier: ChallengeFeatures,
    harder: ChallengeFeatures,
)
    requires
        hardening(model),
        ordinary(easier),
        ordinary(harder),
        easier.removal_volume.at_most(harder.removal_volume),
        easier.boundary_ratio.at_most(harder.boundary_ratio),
        easier.asymmetry.at_most(harder.asymmetry),
        easier.reach_strain.at_most(harder.reach_strain),
        easier.head_proximity.at_most(harder.head_proximity),
    ensures
        model.predicted(easier).at_most(model.predicted(harder)),
{
    let (a0, b0) = (model.intercept, model.intercept);
    lemma_one_more_term(
        a0,
        b0,
        model.removal_volume,
        easier.removal_volume,
        harder.removal_volume,
    );
    let a1 = a0.plus(model.removal_volume.times(easier.removal_volume));
    let b1 = b0.plus(model.removal_volume.times(harder.removal_volume));
    lemma_one_more_term(
        a1,
        b1,
        model.boundary_ratio,
        easier.boundary_ratio,
        harder.boundary_ratio,
    );
    let a2 = a1.plus(model.boundary_ratio.times(easier.boundary_ratio));
    let b2 = b1.plus(model.boundary_ratio.times(harder.boundary_ratio));
    lemma_one_more_term(a2, b2, model.asymmetry, easier.asymmetry, harder.asymmetry);
    let a3 = a2.plus(model.asymmetry.times(easier.asymmetry));
    let b3 = b2.plus(model.asymmetry.times(harder.asymmetry));
    lemma_one_more_term(a3, b3, model.reach_strain, easier.reach_strain, harder.reach_strain);
    let a4 = a3.plus(model.reach_strain.times(easier.reach_strain));
    let b4 = b3.plus(model.reach_strain.times(harder.reach_strain));
    lemma_one_more_term(
        a4,
        b4,
        model.head_proximity,
        easier.head_proximity,
        harder.head_proximity,
    );
    law_the_scale_keeps_order(
        a4.plus(model.head_proximity.times(easier.head_proximity)),
        b4.plus(model.head_proximity.times(harder.head_proximity)),
    );
}

/// The prior counts every feature as making an item harder.
pub proof fn law_the_prior_hardens()
    ensures
        hardening(DifficultyModel::prior()),
{
}


/// What is believed of difficulty before anything was observed: every feature makes an item harder,
/// closeness to the head most of all, then the strain of reaching, then the boundary, then asymmetry,
/// and the volume least; and an item without any of them would be the easiest there is.
pub proof fn law_what_makes_an_item_hard()
    ensures
        DifficultyModel::prior().intercept.bits == 0xc014_0000_0000_0000,
        DifficultyModel::prior().removal_volume.bits == 0x3fd3_3333_3333_3333,
        DifficultyModel::prior().asymmetry.bits == 0x3fec_cccc_cccc_cccd,
        DifficultyModel::prior().boundary_ratio.bits == 0x3ff1_9999_9999_999a,
        DifficultyModel::prior().reach_strain.bits == 0x3ff6_6666_6666_6666,
        DifficultyModel::prior().head_proximity.bits == 0x3ffb_3333_3333_3333,
{
}


/// Each feature weighs by its own coefficient: in whole numbers the prediction is the intercept with
/// every feature times its coefficient, as far as the scale from minus three to three goes.
pub proof fn law_each_feature_weighs_by_its_own(
    model: DifficultyModel,
    features: ChallengeFeatures,
    from: int,
    volume: (int, int),
    boundary: (int, int),
    asymmetry: (int, int),
    strain: (int, int),
    proximity: (int, int),
)
    requires
        model.intercept.is_number(from),
        model.removal_volume.is_number(volume.0),
        model.boundary_ratio.is_number(boundary.0),
        model.asymmetry.is_number(asymmetry.0),
        model.reach_strain.is_number(strain.0),
        model.head_proximity.is_number(proximity.0),
        features.removal_volume.is_number(volume.1),
        features.boundary_ratio.is_number(boundary.1),
        features.asymmetry.is_number(asymmetry.1),
        features.reach_strain.is_number(strain.1),
        features.head_proximity.is_number(proximity.1),
        -1_000 <= from <= 1_000,
        -1_000 <= volume.0 * volume.1 <= 1_000,
        -1_000 <= boundary.0 * boundary.1 <= 1_000,
        -1_000 <= asymmetry.0 * asymmetry.1 <= 1_000,
        -1_000 <= strain.0 * strain.1 <= 1_000,
        -1_000 <= proximity.0 * proximity.1 <= 1_000,
    ensures
        ({
            let sum = from + volume.0 * volume.1 + boundary.0 * boundary.1 + asymmetry.0 * asymmetry.1
                + strain.0 * strain.1 + proximity.0 * proximity.1;
            -2 <= sum <= 2 ==> model.predicted(features).is_number(sum)
        }),
{
    let (a, b, c, d, e) = (
        volume.0 * volume.1,
        boundary.0 * boundary.1,
        asymmetry.0 * asymmetry.1,
        strain.0 * strain.1,
        proximity.0 * proximity.1,
    );
    let v = model.removal_volume.times(features.removal_volume);
    let w = model.boundary_ratio.times(features.boundary_ratio);
    let x = model.asymmetry.times(features.asymmetry);
    let y = model.reach_strain.times(features.reach_strain);
    let z = model.head_proximity.times(features.head_proximity);
    law_whole_numbers_are_multiplied_exactly(
        model.removal_volume,
        features.removal_volume,
        volume.0,
        volume.1,
    );
    law_whole_numbers_are_multiplied_exactly(
        model.boundary_ratio,
        features.boundary_ratio,
        boundary.0,
        boundary.1,
    );
    law_whole_numbers_are_multiplied_exactly(
        model.asymmetry,
        features.asymmetry,
        asymmetry.0,
        asymmetry.1,
    );
    law_whole_numbers_are_multiplied_exactly(
        model.reach_strain,
        features.reach_strain,
        strain.0,
        strain.1,
    );
    law_whole_numbers_are_multiplied_exactly(
        model.head_proximity,
        features.head_proximity,
        proximity.0,
        proximity.1,
    );
    let s1 = model.intercept.plus(v);
    law_whole_numbers_are_added_exactly(model.intercept, v, from, a);
    let s2 = s1.plus(w);
    law_whole_numbers_are_added_exactly(s1, w, from + a, b);
    let s3 = s2.plus(x);
    law_whole_numbers_are_added_exactly(s2, x, from + a + b, c);
    let s4 = s3.plus(y);
    law_whole_numbers_are_added_exactly(s3, y, from + a + b + c, d);
    law_whole_numbers_are_added_exactly(s4, z, from + a + b + c + d, e);
    if -2 <= from + a + b + c + d + e <= 2 {
        lemma_small_numbers_are_on_the_scale(s4.plus(z), from + a + b + c + d + e);
    }
}

proof fn lemma_small_numbers_are_on_the_scale(x: Real, n: int)
    requires
        x.is_number(n),
        -2 <= n <= 2,
    ensures
        !x.below(difficulty_floor()),
        !difficulty_ceiling().below(x),
{
    let (low, high) = (difficulty_floor(), difficulty_ceiling());
    let one = pow2(1074);
    vstd::arithmetic::power2::lemma_pow2_pos(1074);
    crate::rounding::lemma_three();
    law_equal_values_rank_alike(x, low);
    law_equal_values_rank_alike(high, x);
    assert(-2 * one <= n * one && n * one <= 2 * one) by (nonlinear_arith)
        requires
            -2 <= n <= 2,
            one > 0,
    ;
}

}
