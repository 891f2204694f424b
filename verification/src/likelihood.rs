//! The response model: the chance that a response succeeds, and what responses say of
//! the parameters they were made under.
//!
//! Exponentials, logarithms and roots are the caller's [`Functions`]; everything that is
//! made of them is computed here, rounded as the machine rounds it. What is stated holds
//! for whatever functions the caller's compute: a [`Model`].

use crate::calibration::{
    linking_view, DifficultyMeasure, LinkingItem, LinkingView, Observation, OffsetMeasure,
    PairMeasure, ResidualMeasure,
};
use crate::number::Real;
use crate::rounding::{
    law_adding_stays_a_number, law_inverses_turn_order, law_numbers_are_not_rounded,
    law_sums_keep_order, law_whole_numbers_are_added_exactly,
};
use vstd::arithmetic::power2::pow2;
use vstd::prelude::*;

verus! {

/// Functions of a number that the caller computes.
pub struct Functions<E, L, S> {
    /// The exponential.
    pub exponential: E,
    /// The natural logarithm.
    pub logarithm: L,
    /// The square root.
    pub root: S,
}

/// What such functions compute.
pub struct Model {
    /// The exponential.
    pub exponential: spec_fn(Real) -> Real,
    /// The natural logarithm.
    pub logarithm: spec_fn(Real) -> Real,
    /// The square root.
    pub root: spec_fn(Real) -> Real,
}

/// Whether something that can be called computes a function.
pub open spec fn computes<F: Fn(Real) -> Real>(f: F, function: spec_fn(Real) -> Real) -> bool {
    forall|x: Real, y: Real| #[trigger] f.ensures((x,), y) ==> y == function(x)
}

impl<E: Fn(Real) -> Real, L: Fn(Real) -> Real, S: Fn(Real) -> Real> Functions<E, L, S> {
    /// Whether each can be called on every number.
    pub open spec fn everywhere(self) -> bool {
        &&& forall|x: Real| #[trigger] self.exponential.requires((x,))
        &&& forall|x: Real| #[trigger] self.logarithm.requires((x,))
        &&& forall|x: Real| #[trigger] self.root.requires((x,))
    }

    /// Whether they compute the functions of a model.
    pub open spec fn follow(self, model: Model) -> bool {
        &&& computes(self.exponential, model.exponential)
        &&& computes(self.logarithm, model.logarithm)
        &&& computes(self.root, model.root)
    }

    fn exp(&self, x: Real) -> (r: Real)
        requires
            self.everywhere(),
        ensures
            forall|model: Model| #[trigger] self.follow(model) ==> r == (model.exponential)(x),
    {
        let r = (self.exponential)(x);
        assert(self.exponential.ensures((x,), r));
        r
    }

    /// The natural logarithm.
    pub(crate) fn ln(&self, x: Real) -> (r: Real)
        requires
            self.everywhere(),
        ensures
            forall|model: Model| #[trigger] self.follow(model) ==> r == (model.logarithm)(x),
    {
        let r = (self.logarithm)(x);
        assert(self.logarithm.ensures((x,), r));
        r
    }

    /// The square root.
    pub(crate) fn sqrt(&self, x: Real) -> (r: Real)
        requires
            self.everywhere(),
        ensures
            forall|model: Model| #[trigger] self.follow(model) ==> r == (model.root)(x),
    {
        let r = (self.root)(x);
        assert(self.root.ensures((x,), r));
        r
    }
}

/// One.
pub open spec fn unit() -> Real {
    Real { bits: 0x3ff0_0000_0000_0000 }
}

/// The variance of a response with a chance of success.
pub open spec fn variance(chance: Real) -> Real {
    chance.times(unit().minus(chance))
}

fn variance_of(chance: Real) -> (r: Real)
    ensures
        r == variance(chance),
{
    chance.multiply(Real::one().subtract(chance))
}

impl Observation {
    /// The offset that applies to the response: none in the reference condition.
    pub open spec fn shift(self, mode_offset: Real) -> Real {
        if self.mode is Solo {
            Real { bits: 0 }
        } else {
            mode_offset
        }
    }

    /// The response as a number.
    pub open spec fn outcome(self) -> Real {
        if self.correct {
            unit()
        } else {
            Real { bits: 0 }
        }
    }

    /// How far the respondent stood above the item.
    pub open spec fn margin(self, difficulty: Real, mode_offset: Real) -> Real {
        self.theta.minus(difficulty).minus(self.shift(mode_offset))
    }

    /// The chance of success that the model gives the response: a logistic curve, its
    /// tails computed so that neither overflows.
    pub open spec fn chance(
        self,
        discrimination: Real,
        difficulty: Real,
        mode_offset: Real,
        model: Model,
    ) -> Real {
        let z = discrimination.times(self.margin(difficulty, mode_offset));
        if (Real { bits: 0 }).at_most(z) {
            unit().over(unit().plus((model.exponential)(z.opposite())))
        } else {
            (model.exponential)(z).over(unit().plus((model.exponential)(z)))
        }
    }

    fn above(&self, difficulty: Real, mode_offset: Real) -> (r: Real)
        ensures
            r == self.margin(difficulty, mode_offset),
    {
        self.theta.subtract(difficulty).subtract(self.delta(mode_offset))
    }

    /// Model probability of a correct response.
    pub fn probability<E: Fn(Real) -> Real, L: Fn(Real) -> Real, S: Fn(Real) -> Real>(
        &self,
        discrimination: Real,
        difficulty: Real,
        mode_offset: Real,
        functions: &Functions<E, L, S>,
    ) -> (r: Real)
        requires
            functions.everywhere(),
        ensures
            forall|model: Model| #[trigger]
                functions.follow(model) ==> r == self.chance(
                    discrimination,
                    difficulty,
                    mode_offset,
                    model,
                ),
    {
        let z = discrimination.multiply(self.above(difficulty, mode_offset));
        if Real::zero().le(z) {
            Real::one().divide(Real::one().sum(functions.exp(z.neg())))
        } else {
            let e = functions.exp(z);
            e.divide(Real::one().sum(e))
        }
    }
}

/// The sum of residuals, and the sum of variances, of responses.
pub open spec fn difficulty_sums(
    observations: Seq<Observation>,
    discrimination: Real,
    difficulty: Real,
    mode_offset: Real,
    model: Model,
) -> (Real, Real)
    decreases observations.len(),
{
    if observations.len() == 0 {
        (Real { bits: 0 }, Real { bits: 0 })
    } else {
        let (residual, weight) = difficulty_sums(
            observations.drop_last(),
            discrimination,
            difficulty,
            mode_offset,
            model,
        );
        let p = observations.last().chance(discrimination, difficulty, mode_offset, model);
        (residual.plus(p.minus(observations.last().outcome())), weight.plus(variance(p)))
    }
}

/// Sums over responses for a fit of both parameters.
#[derive(Clone, Copy, Debug, PartialEq, Eq, Structural)]
pub struct PairSums {
    /// Of variances times squared margins.
    pub squares: Real,
    /// Of variances times margins.
    pub products: Real,
    /// Of variances.
    pub weights: Real,
    /// Of residuals.
    pub residuals: Real,
    /// Of residuals times margins.
    pub moments: Real,
}

/// The sums over responses for a fit of both parameters.
pub open spec fn pair_sums(
    observations: Seq<Observation>,
    discrimination: Real,
    difficulty: Real,
    mode_offset: Real,
    model: Model,
) -> PairSums
    decreases observations.len(),
{
    if observations.len() == 0 {
        let zero = Real { bits: 0 };
        PairSums { squares: zero, products: zero, weights: zero, residuals: zero, moments: zero }
    } else {
        let sums = pair_sums(
            observations.drop_last(),
            discrimination,
            difficulty,
            mode_offset,
            model,
        );
        let last = observations.last();
        let u = last.margin(difficulty, mode_offset);
        let p = last.chance(discrimination, difficulty, mode_offset, model);
        let w = variance(p);
        let residual = last.outcome().minus(p);
        PairSums {
            squares: sums.squares.plus(w.times(u).times(u)),
            products: sums.products.plus(w.times(u)),
            weights: sums.weights.plus(w),
            residuals: sums.residuals.plus(residual),
            moments: sums.moments.plus(residual.times(u)),
        }
    }
}

impl PairSums {
    /// The determinant of the information on both parameters.
    pub open spec fn determinant(self) -> Real {
        self.squares.times(self.weights).minus(self.products.times(self.products))
    }
}

/// What responses to an item of some parameters add to sums of residuals and of
/// information on an offset.
pub open spec fn offset_sums_of(
    observations: Seq<Observation>,
    discrimination: Real,
    difficulty: Real,
    offset: Real,
    model: Model,
    from: (Real, Real),
) -> (Real, Real)
    decreases observations.len(),
{
    if observations.len() == 0 {
        from
    } else {
        let (numerator, information) = offset_sums_of(
            observations.drop_last(),
            discrimination,
            difficulty,
            offset,
            model,
            from,
        );
        let p = observations.last().chance(discrimination, difficulty, offset, model);
        (
            numerator.plus(discrimination.times(p.minus(observations.last().outcome()))),
            information.plus(
                discrimination.times(discrimination).times(p).times(unit().minus(p)),
            ),
        )
    }
}

/// The sum of residuals, each times its item's discrimination, and the information on an
/// offset, over the responses to some items.
pub open spec fn offset_sums(items: Seq<LinkingView>, offset: Real, model: Model) -> (Real, Real)
    decreases items.len(),
{
    if items.len() == 0 {
        (Real { bits: 0 }, Real { bits: 0 })
    } else {
        offset_sums_of(
            items.last().observations,
            items.last().discrimination,
            items.last().difficulty,
            offset,
            model,
            offset_sums(items.drop_last(), offset, model),
        )
    }
}

impl Model {
    /// What responses say of a difficulty, with the discrimination held fixed: the step
    /// by which the model comes to predict as many successes as were observed.
    pub open spec fn difficulty(self) -> spec_fn(Seq<Observation>, Real, Real, Real) -> DifficultyMeasure {
        |observations: Seq<Observation>, discrimination: Real, difficulty: Real, mode_offset: Real|
            {
                let (residual, weight) = difficulty_sums(
                    observations,
                    discrimination,
                    difficulty,
                    mode_offset,
                    self,
                );
                DifficultyMeasure {
                    step: residual.over(discrimination.times(weight)),
                    information: weight,
                    se: unit().over(
                        (self.root)(discrimination.times(discrimination).times(weight)),
                    ),
                }
            }
    }

    /// What responses say of a discrimination, by its logarithm, and of a difficulty: a
    /// step of Fisher scoring in both.
    pub open spec fn pair(self) -> spec_fn(Seq<Observation>, Real, Real, Real) -> PairMeasure {
        |observations: Seq<Observation>, logarithm: Real, difficulty: Real, mode_offset: Real|
            {
                let a = (self.exponential)(logarithm);
                let sums = pair_sums(observations, a, difficulty, mode_offset, self);
                let determinant = sums.determinant();
                PairMeasure {
                    discrimination: a,
                    determinant,
                    information: sums.weights,
                    step_logarithm: sums.weights.times(sums.moments).minus(
                        sums.products.times(sums.residuals),
                    ).over(a.times(determinant)),
                    step_difficulty: sums.products.times(sums.moments).minus(
                        sums.squares.times(sums.residuals),
                    ).over(a.times(determinant)),
                    se: (self.root)(sums.squares.over(a.times(a).times(determinant))),
                }
            }
    }

    /// What the responses to some items say of an offset.
    pub open spec fn offset(self) -> spec_fn(Seq<LinkingView>, Real) -> OffsetMeasure {
        |items: Seq<LinkingView>, offset: Real|
            {
                let (numerator, information) = offset_sums(items, offset, self);
                OffsetMeasure {
                    numerator,
                    information,
                    se: unit().over((self.root)(information)),
                }
            }
    }

    /// How well a response fits.
    pub open spec fn residuals(self) -> spec_fn(Observation, Real, Real, Real) -> ResidualMeasure {
        |observation: Observation, discrimination: Real, difficulty: Real, mode_offset: Real|
            {
                let p = observation.chance(discrimination, difficulty, mode_offset, self);
                let z = observation.outcome().minus(p).over((self.root)(variance(p)));
                ResidualMeasure { variance: variance(p), squared: z.times(z) }
            }
    }

    /// The pooled standard error of two.
    pub open spec fn pooled(self) -> spec_fn(Real, Real) -> Real {
        |early: Real, late: Real| (self.root)(early.times(early).plus(late.times(late)))
    }
}

/// What responses say of a difficulty, with the discrimination held fixed.
pub fn measure_difficulty<E: Fn(Real) -> Real, L: Fn(Real) -> Real, S: Fn(Real) -> Real>(
    observations: &[Observation],
    discrimination: Real,
    difficulty: Real,
    mode_offset: Real,
    functions: &Functions<E, L, S>,
) -> (r: DifficultyMeasure)
    requires
        functions.everywhere(),
    ensures
        forall|model: Model| #[trigger]
            functions.follow(model) ==> r == (model.difficulty())(
                observations@,
                discrimination,
                difficulty,
                mode_offset,
            ),
{
    let mut residual = Real::zero();
    let mut weight = Real::zero();
    for i in 0..observations.len()
        invariant
            functions.everywhere(),
            forall|model: Model| #[trigger]
                functions.follow(model) ==> (residual, weight) == difficulty_sums(
                    observations@.take(i as int),
                    discrimination,
                    difficulty,
                    mode_offset,
                    model,
                ),
    {
        let observation = observations[i];
        let p = observation.probability(discrimination, difficulty, mode_offset, functions);
        residual = residual.sum(p.subtract(observation.score()));
        weight = weight.sum(variance_of(p));
        assert(observations@.take(i + 1).drop_last() =~= observations@.take(i as int));
    }
    assert(observations@.take(observations@.len() as int) =~= observations@);
    DifficultyMeasure {
        step: residual.divide(discrimination.multiply(weight)),
        information: weight,
        se: Real::one().divide(
            functions.sqrt(discrimination.multiply(discrimination).multiply(weight)),
        ),
    }
}

fn sum_pairs<E: Fn(Real) -> Real, L: Fn(Real) -> Real, S: Fn(Real) -> Real>(
    observations: &[Observation],
    discrimination: Real,
    difficulty: Real,
    mode_offset: Real,
    functions: &Functions<E, L, S>,
) -> (r: PairSums)
    requires
        functions.everywhere(),
    ensures
        forall|model: Model| #[trigger]
            functions.follow(model) ==> r == pair_sums(
                observations@,
                discrimination,
                difficulty,
                mode_offset,
                model,
            ),
{
    let zero = Real::zero();
    let mut sums = PairSums {
        squares: zero,
        products: zero,
        weights: zero,
        residuals: zero,
        moments: zero,
    };
    for i in 0..observations.len()
        invariant
            functions.everywhere(),
            forall|model: Model| #[trigger]
                functions.follow(model) ==> sums == pair_sums(
                    observations@.take(i as int),
                    discrimination,
                    difficulty,
                    mode_offset,
                    model,
                ),
    {
        let observation = observations[i];
        let u = observation.above(difficulty, mode_offset);
        let p = observation.probability(discrimination, difficulty, mode_offset, functions);
        let w = variance_of(p);
        let residual = observation.score().subtract(p);
        sums = PairSums {
            squares: sums.squares.sum(w.multiply(u).multiply(u)),
            products: sums.products.sum(w.multiply(u)),
            weights: sums.weights.sum(w),
            residuals: sums.residuals.sum(residual),
            moments: sums.moments.sum(residual.multiply(u)),
        };
        assert(observations@.take(i + 1).drop_last() =~= observations@.take(i as int));
    }
    assert(observations@.take(observations@.len() as int) =~= observations@);
    sums
}

/// What responses say of a discrimination, by its logarithm, and of a difficulty.
pub fn measure_pair<E: Fn(Real) -> Real, L: Fn(Real) -> Real, S: Fn(Real) -> Real>(
    observations: &[Observation],
    logarithm: Real,
    difficulty: Real,
    mode_offset: Real,
    functions: &Functions<E, L, S>,
) -> (r: PairMeasure)
    requires
        functions.everywhere(),
    ensures
        forall|model: Model| #[trigger]
            functions.follow(model) ==> r == (model.pair())(
                observations@,
                logarithm,
                difficulty,
                mode_offset,
            ),
{
    let a = functions.exp(logarithm);
    let sums = sum_pairs(observations, a, difficulty, mode_offset, functions);
    let determinant = sums.squares.multiply(sums.weights).subtract(
        sums.products.multiply(sums.products),
    );
    let scale = a.multiply(determinant);
    PairMeasure {
        discrimination: a,
        determinant,
        information: sums.weights,
        step_logarithm: sums.weights.multiply(sums.moments).subtract(
            sums.products.multiply(sums.residuals),
        ).divide(scale),
        step_difficulty: sums.products.multiply(sums.moments).subtract(
            sums.squares.multiply(sums.residuals),
        ).divide(scale),
        se: functions.sqrt(sums.squares.divide(a.multiply(a).multiply(determinant))),
    }
}

fn sum_offset<E: Fn(Real) -> Real, L: Fn(Real) -> Real, S: Fn(Real) -> Real>(
    item: &LinkingItem,
    offset: Real,
    from: (Real, Real),
    functions: &Functions<E, L, S>,
) -> (r: (Real, Real))
    requires
        functions.everywhere(),
    ensures
        forall|model: Model| #[trigger]
            functions.follow(model) ==> r == offset_sums_of(
                item@.observations,
                item@.discrimination,
                item@.difficulty,
                offset,
                model,
                from,
            ),
{
    let a = item.discrimination;
    let (mut numerator, mut information) = from;
    for i in 0..item.observations.len()
        invariant
            functions.everywhere(),
            a == item.discrimination,
            forall|model: Model| #[trigger]
                functions.follow(model) ==> (numerator, information) == offset_sums_of(
                    item.observations@.take(i as int),
                    a,
                    item.difficulty,
                    offset,
                    model,
                    from,
                ),
    {
        let observation = item.observations[i];
        let p = observation.probability(a, item.difficulty, offset, functions);
        numerator = numerator.sum(a.multiply(p.subtract(observation.score())));
        information = information.sum(
            a.multiply(a).multiply(p).multiply(Real::one().subtract(p)),
        );
        assert(item.observations@.take(i + 1).drop_last() =~= item.observations@.take(i as int));
    }
    assert(item.observations@.take(item.observations@.len() as int) =~= item.observations@);
    (numerator, information)
}

/// What the responses to some items say of an offset.
pub fn measure_offset<E: Fn(Real) -> Real, L: Fn(Real) -> Real, S: Fn(Real) -> Real>(
    items: &Vec<LinkingItem>,
    offset: Real,
    functions: &Functions<E, L, S>,
) -> (r: OffsetMeasure)
    requires
        functions.everywhere(),
    ensures
        forall|model: Model| #[trigger]
            functions.follow(model) ==> r == (model.offset())(linking_view(items@), offset),
{
    let ghost shown = linking_view(items@);
    let mut sums = (Real::zero(), Real::zero());
    for i in 0..items.len()
        invariant
            functions.everywhere(),
            shown == linking_view(items@),
            forall|model: Model| #[trigger]
                functions.follow(model) ==> sums == offset_sums(shown.take(i as int), offset, model),
    {
        sums = sum_offset(&items[i], offset, sums, functions);
        assert(shown.take(i + 1).drop_last() =~= shown.take(i as int));
        assert(shown.take(i + 1).last() == items@[i as int]@);
    }
    assert(shown.take(shown.len() as int) =~= shown);
    let (numerator, information) = sums;
    OffsetMeasure {
        numerator,
        information,
        se: Real::one().divide(functions.sqrt(information)),
    }
}

/// How well a response fits.
pub fn measure_residual<E: Fn(Real) -> Real, L: Fn(Real) -> Real, S: Fn(Real) -> Real>(
    observation: &Observation,
    discrimination: Real,
    difficulty: Real,
    mode_offset: Real,
    functions: &Functions<E, L, S>,
) -> (r: ResidualMeasure)
    requires
        functions.everywhere(),
    ensures
        forall|model: Model| #[trigger]
            functions.follow(model) ==> r == (model.residuals())(
                *observation,
                discrimination,
                difficulty,
                mode_offset,
            ),
{
    let p = observation.probability(discrimination, difficulty, mode_offset, functions);
    let variance = variance_of(p);
    let z = observation.score().subtract(p).divide(functions.sqrt(variance));
    ResidualMeasure { variance, squared: z.multiply(z) }
}

/// The pooled standard error of two.
pub fn pool_errors<E: Fn(Real) -> Real, L: Fn(Real) -> Real, S: Fn(Real) -> Real>(
    early: Real,
    late: Real,
    functions: &Functions<E, L, S>,
) -> (r: Real)
    requires
        functions.everywhere(),
    ensures
        forall|model: Model| #[trigger]
            functions.follow(model) ==> r == (model.pooled())(early, late),
{
    functions.sqrt(early.multiply(early).sum(late.multiply(late)))
}


/// The offset between modes bears on match responses and on nothing else: what is expected of a solo
/// response is the same whatever the offset, and a match response is met as one to an item that is
/// harder by the offset.
pub proof fn law_the_offset_bears_on_match_responses(
    response: Observation,
    discrimination: Real,
    difficulty: Real,
    offset: Real,
    other: Real,
    model: Model,
    ability: int,
    at: int,
    by: int,
)
    requires
        response.theta.is_number(ability),
        difficulty.is_number(at),
        offset.is_number(by),
        -1000 <= ability <= 1000,
        -1000 <= at <= 1000,
        -1000 <= by <= 1000,
    ensures
        response.mode is Solo ==> response.chance(discrimination, difficulty, offset, model)
            == response.chance(discrimination, difficulty, other, model),
        response.mode is Solo ==> response.margin(difficulty, offset).is_number(ability - at),
        response.mode is Match ==> response.margin(difficulty, offset).is_number(ability - at - by),
{
    let zero = Real { bits: 0 };
    assert(zero.is_number(0)) by {
        assert(zero.significand() == 0);
        assert(0 * pow2((zero.scale() + 1074) as nat) == 0);
        assert(0 * pow2(1074) == 0);
    }
    law_whole_numbers_are_added_exactly(response.theta, difficulty, ability, at);
    law_whole_numbers_are_added_exactly(
        response.theta.minus(difficulty),
        offset,
        ability - at,
        by,
    );
    law_whole_numbers_are_added_exactly(response.theta.minus(difficulty), zero, ability - at, 0);
}

/// A right answer is worth one, a wrong one nothing.
pub proof fn law_an_answer_is_right_or_wrong(response: Observation)
    ensures
        response.correct ==> response.outcome().bits == 0x3ff0_0000_0000_0000,
        !response.correct ==> response.outcome().bits == 0,
{
}

/// Whether an exponential is never negative and never falls.
pub open spec fn grows(model: Model) -> bool {
    &&& forall|x: Real| !x.not_a_number() ==> (Real { bits: 0 }).at_most(
        #[trigger] (model.exponential)(x),
    )
    &&& forall|x: Real, y: Real|
        x.at_most(y) ==> (#[trigger] (model.exponential)(x)).at_most(
            #[trigger] (model.exponential)(y),
        )
}

/// Where the exponential grows as it should, a solo response by a learner who stands at least where
/// the item does is expected to be right at least as often as one by a learner who stands closer to
/// it: of two that stand above the item, the one further above is expected to do no worse.
pub proof fn law_the_better_learner_does_no_worse(
    weaker: Observation,
    stronger: Observation,
    discrimination: Real,
    difficulty: Real,
    offset: Real,
    model: Model,
)
    requires
        weaker.theta.finite(),
        stronger.theta.finite(),
        difficulty.finite(),
        offset.finite(),
        (Real { bits: 0 }).at_most(
            discrimination.times(weaker.margin(difficulty, offset)),
        ),
        discrimination.times(weaker.margin(difficulty, offset)).at_most(
            discrimination.times(stronger.margin(difficulty, offset)),
        ),
        grows(model),
    ensures
        weaker.chance(discrimination, difficulty, offset, model).at_most(
            stronger.chance(discrimination, difficulty, offset, model),
        ),
{
    let z = discrimination.times(weaker.margin(difficulty, offset));
    let w = discrimination.times(stronger.margin(difficulty, offset));
    assert(w.opposite().at_most(z.opposite()));
    let (x, y) = ((model.exponential)(z.opposite()), (model.exponential)(w.opposite()));
    assert(y.at_most(x));
    let one = unit();
    law_adding_stays_a_number(one, x);
    law_adding_stays_a_number(one, y);
    law_sums_keep_order(one, one, y, x);
    let zero = Real { bits: 0 };
    assert(one.plus(zero) == one) by {
        reveal(Real::plus);
        law_numbers_are_not_rounded(one);
        crate::rounding::lemma_zero_steps(zero);
        crate::rounding::lemma_zero_steps(one);
    }
    law_sums_keep_order(one, one, zero, y);
    law_inverses_turn_order(one.plus(y), one.plus(x));
}


/// Whether every response is expected with a chance between nothing and certainty.
pub open spec fn has_chances(
    observations: Seq<Observation>,
    discrimination: Real,
    difficulty: Real,
    offset: Real,
    model: Model,
) -> bool {
    forall|i: int|
        0 <= i < observations.len() ==> (Real { bits: 0 }).at_most(
            (#[trigger] observations[i]).chance(discrimination, difficulty, offset, model),
        ) && observations[i].chance(discrimination, difficulty, offset, model).at_most(unit())
}

/// Wrong answers make an item harder and right ones easier: where all answers are wrong its difficulty
/// is not moved down, and where all are right it is not moved up.
pub proof fn law_wrong_answers_make_an_item_harder(
    observations: Seq<Observation>,
    discrimination: Real,
    difficulty: Real,
    offset: Real,
    model: Model,
    right: bool,
)
    requires
        has_chances(observations, discrimination, difficulty, offset, model),
        forall|i: int| 0 <= i < observations.len() ==> (#[trigger] observations[i]).correct == right,
    ensures
        ({
            let moved = difficulty_sums(observations, discrimination, difficulty, offset, model).0;
            &&& !moved.not_a_number()
            &&& !right ==> (Real { bits: 0 }).at_most(moved)
            &&& right ==> moved.at_most(Real { bits: 0 })
        }),
    decreases observations.len(),
{
    let zero = Real { bits: 0 };
    if observations.len() > 0 {
        let shorter = observations.drop_last();
        assert forall|i: int| 0 <= i < shorter.len() implies (#[trigger] shorter[i]).correct == right
            && zero.at_most(shorter[i].chance(discrimination, difficulty, offset, model))
            && shorter[i].chance(discrimination, difficulty, offset, model).at_most(unit()) by {
            assert(observations[i] == shorter[i]);
        }
        law_wrong_answers_make_an_item_harder(
            shorter,
            discrimination,
            difficulty,
            offset,
            model,
            right,
        );
        let before = difficulty_sums(shorter, discrimination, difficulty, offset, model).0;
        let last = observations[observations.len() - 1];
        let p = last.chance(discrimination, difficulty, offset, model);
        let residual = p.minus(last.outcome());
        lemma_residual_sign(p, right);
        lemma_sum_sign(before, residual, right);
    }
}

proof fn lemma_residual_sign(p: Real, right: bool)
    requires
        (Real { bits: 0 }).at_most(p),
        p.at_most(unit()),
    ensures
        ({
            let residual = p.minus(
                if right {
                    unit()
                } else {
                    Real { bits: 0 }
                },
            );
            &&& residual.finite()
            &&& !right ==> (Real { bits: 0 }).at_most(residual)
            &&& right ==> residual.at_most(Real { bits: 0 })
        }),
{
    let zero = Real { bits: 0 };
    assert(unit().plus(zero.opposite()) == unit() && zero.plus(unit().opposite())
        == unit().opposite()) by {
        reveal(Real::plus);
        law_numbers_are_not_rounded(unit());
        crate::rounding::lemma_zero_steps(zero);
        crate::rounding::lemma_zero_steps(zero.opposite());
        crate::rounding::lemma_zero_steps(unit());
        assert(unit().opposite().steps() == unit().steps());
    }
    let taken = if right {
        unit()
    } else {
        zero
    };
    let against = taken.opposite();
    crate::rounding::law_finite_numbers_add_up(p, against);
    crate::rounding::law_finite_numbers_add_up(taken, against);
    crate::rounding::law_a_number_less_itself_is_nothing(taken);
    if right {
        law_sums_keep_order(p, taken, against, against);
        law_sums_keep_order(zero, p, against, against);
    } else {
        law_sums_keep_order(taken, p, against, against);
        law_sums_keep_order(p, unit(), against, against);
    }
}

proof fn lemma_sum_sign(x: Real, y: Real, low: bool)
    requires
        !x.not_a_number(),
        !y.not_a_number(),
        !low ==> (Real { bits: 0 }).at_most(x) && (Real { bits: 0 }).at_most(y),
        low ==> x.at_most(Real { bits: 0 }) && y.at_most(Real { bits: 0 }),
    ensures
        !x.plus(y).not_a_number(),
        !low ==> (Real { bits: 0 }).at_most(x.plus(y)),
        low ==> x.plus(y).at_most(Real { bits: 0 }),
{
    let zero = Real { bits: 0 };
    reveal(Real::plus);
    if x.finite() && y.finite() {
        crate::rounding::law_finite_numbers_add_up(x, y);
    }
    crate::rounding::law_finite_numbers_add_up(zero, zero);
    crate::rounding::lemma_zero_steps(zero);
    assert(zero.plus(zero) == zero);
    if low {
        law_sums_keep_order(x, zero, y, zero);
    } else {
        law_sums_keep_order(zero, x, zero, y);
    }
}

/// A response that was certain either way tells nothing.
pub proof fn law_certainty_tells_nothing()
    ensures
        variance(Real { bits: 0 }).bits == 0,
        variance(Real { bits: 0x3ff0_0000_0000_0000 }).bits == 0,
{
    reveal(Real::times);
    let (zero, one) = (Real { bits: 0 }, unit());
    crate::rounding::law_a_number_less_itself_is_nothing(one);
    crate::rounding::lemma_zero_steps(zero);
    law_numbers_are_not_rounded(zero);
    let p = pow2(1074);
    vstd::arithmetic::power2::lemma_pow2_pos(1074);
    let rest = one.minus(zero);
    assert(rest == one) by {
        reveal(Real::plus);
        law_numbers_are_not_rounded(one);
        crate::rounding::lemma_zero_steps(zero.opposite());
        crate::rounding::lemma_zero_steps(one);
    }
    assert(0 * rest.steps() == 0 && one.steps() * 0 == 0) by (nonlinear_arith);
    crate::rounding::law_nearest_is_of_the_fraction(0, p, 0, 1);
}


/// Wrong answers under a deadline make rounds look harder and right ones easier: where all answers to
/// an item are wrong the offset is not moved down by them, and where all are right it is not moved up.
pub proof fn law_wrong_answers_raise_the_offset(
    observations: Seq<Observation>,
    discrimination: Real,
    difficulty: Real,
    offset: Real,
    model: Model,
    from: (Real, Real),
    right: bool,
)
    requires
        has_chances(observations, discrimination, difficulty, offset, model),
        forall|i: int| 0 <= i < observations.len() ==> (#[trigger] observations[i]).correct == right,
        discrimination.finite(),
        !discrimination.is_negative(),
        !from.0.not_a_number(),
        !right ==> (Real { bits: 0 }).at_most(from.0),
        right ==> from.0.at_most(Real { bits: 0 }),
    ensures
        ({
            let moved = offset_sums_of(observations, discrimination, difficulty, offset, model, from).0;
            &&& !moved.not_a_number()
            &&& !right ==> (Real { bits: 0 }).at_most(moved)
            &&& right ==> moved.at_most(Real { bits: 0 })
        }),
    decreases observations.len(),
{
    if observations.len() > 0 {
        let shorter = observations.drop_last();
        lemma_fewer_chances(observations, discrimination, difficulty, offset, model);
        assert forall|i: int| 0 <= i < shorter.len() implies (#[trigger] shorter[i]).correct == right by {
            assert(observations[i] == shorter[i]);
        }
        law_wrong_answers_raise_the_offset(
            shorter,
            discrimination,
            difficulty,
            offset,
            model,
            from,
            right,
        );
        let before = offset_sums_of(shorter, discrimination, difficulty, offset, model, from).0;
        let last = observations[observations.len() - 1];
        let p = last.chance(discrimination, difficulty, offset, model);
        let residual = p.minus(last.outcome());
        lemma_residual_sign(p, right);
        crate::rounding::lemma_sign_of_product(discrimination, residual);
        lemma_sum_sign(before, discrimination.times(residual), right);
    }
}

/// In a fit of two parameters the answers pull the other way round: what right answers add to the
/// residuals is not below zero, and what wrong ones add is not above it.
pub proof fn law_right_answers_leave_residuals_above_zero(
    observations: Seq<Observation>,
    discrimination: Real,
    difficulty: Real,
    offset: Real,
    model: Model,
    right: bool,
)
    requires
        has_chances(observations, discrimination, difficulty, offset, model),
        forall|i: int| 0 <= i < observations.len() ==> (#[trigger] observations[i]).correct == right,
    ensures
        ({
            let left = pair_sums(observations, discrimination, difficulty, offset, model).residuals;
            &&& !left.not_a_number()
            &&& right ==> (Real { bits: 0 }).at_most(left)
            &&& !right ==> left.at_most(Real { bits: 0 })
        }),
    decreases observations.len(),
{
    if observations.len() > 0 {
        let shorter = observations.drop_last();
        lemma_fewer_chances(observations, discrimination, difficulty, offset, model);
        assert forall|i: int| 0 <= i < shorter.len() implies (#[trigger] shorter[i]).correct == right by {
            assert(observations[i] == shorter[i]);
        }
        law_right_answers_leave_residuals_above_zero(
            shorter,
            discrimination,
            difficulty,
            offset,
            model,
            right,
        );
        let before = pair_sums(shorter, discrimination, difficulty, offset, model).residuals;
        let last = observations[observations.len() - 1];
        let p = last.chance(discrimination, difficulty, offset, model);
        lemma_residual_turned(p, right);
        lemma_sum_sign(before, last.outcome().minus(p), !right);
    }
}

proof fn lemma_fewer_chances(
    observations: Seq<Observation>,
    discrimination: Real,
    difficulty: Real,
    offset: Real,
    model: Model,
)
    requires
        observations.len() > 0,
        has_chances(observations, discrimination, difficulty, offset, model),
    ensures
        has_chances(observations.drop_last(), discrimination, difficulty, offset, model),
        ({
            let p = observations.last().chance(discrimination, difficulty, offset, model);
            (Real { bits: 0 }).at_most(p) && p.at_most(unit())
        }),
{
    let shorter = observations.drop_last();
    assert forall|i: int| 0 <= i < shorter.len() implies (Real { bits: 0 }).at_most(
        (#[trigger] shorter[i]).chance(discrimination, difficulty, offset, model),
    ) && shorter[i].chance(discrimination, difficulty, offset, model).at_most(unit()) by {
        assert(observations[i] == shorter[i]);
    }
    let _ = observations[observations.len() - 1].correct;
    assert(observations[observations.len() - 1] == observations.last());
}

proof fn lemma_residual_turned(p: Real, right: bool)
    requires
        (Real { bits: 0 }).at_most(p),
        p.at_most(unit()),
    ensures
        ({
            let residual = (if right {
                unit()
            } else {
                Real { bits: 0 }
            }).minus(p);
            &&& !residual.not_a_number()
            &&& right ==> (Real { bits: 0 }).at_most(residual)
            &&& !right ==> residual.at_most(Real { bits: 0 })
        }),
{
    let taken = if right {
        unit()
    } else {
        Real { bits: 0 }
    };
    let against = taken.opposite();
    crate::rounding::law_finite_numbers_add_up(taken, p.opposite());
    crate::rounding::law_a_number_less_itself_is_nothing(taken);
    if right {
        assert(against.at_most(p.opposite()));
        crate::rounding::lemma_more_keeps_order(taken, against, p.opposite());
    } else {
        assert(p.opposite().at_most(against));
        crate::rounding::lemma_more_keeps_order(taken, p.opposite(), against);
    }
}

}
