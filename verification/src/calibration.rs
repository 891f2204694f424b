//! Item calibration: what refitting parameters from responses rests on.
//!
//! The model is a two-parameter logistic curve with an offset for responses that
//! were collected under a deadline. For an item observed only under a deadline,
//! its difficulty and the offset are perfectly confounded; identification comes
//! from linking items that were deliberately served in both modes. So a run has
//! three stages: linking items are fitted from solo responses alone, the offset
//! from their match responses, and every other item with that offset held fixed.
//!
//! What responses say of parameters is summed up in [`crate::likelihood`]. Decided here
//! is which responses enter a fit, how far a step may go, when it stops, and what
//! follows from it.

use crate::difficulty::{difficulty_ceiling, difficulty_floor, place_on_scale};
use crate::likelihood::{
    measure_difficulty, measure_offset, measure_pair, measure_residual, pool_errors, Functions,
    Model,
};
use crate::meta::{CalibrationState, ItemId, ItemParameters};
use crate::number::Real;
use crate::rounding::law_a_number_less_itself_is_nothing;
use crate::text::same;
use vstd::prelude::*;
use vstd::slice::slice_subrange;

verus! {

/// Which condition a response was collected under.
#[derive(Clone, Copy, Debug, PartialEq, Eq, Structural)]
pub enum Mode {
    /// Untimed adaptive session. The reference condition, without an offset.
    Solo,
    /// Competitive round under a wall-clock deadline.
    Match,
}

/// One scored response, reduced to what calibration needs.
#[derive(Clone, Copy, Debug, PartialEq, Eq, Structural)]
pub struct Observation {
    /// Ability of the respondent when they answered.
    pub theta: Real,
    /// Whether they mastered the item, after the threshold remap.
    pub correct: bool,
    /// Condition.
    pub mode: Mode,
}

impl Observation {
    /// Build an observation.
    pub fn new(theta: Real, correct: bool, mode: Mode) -> (r: Self)
        ensures
            r == (Observation { theta, correct, mode }),
    {
        Observation { theta, correct, mode }
    }

    /// The offset that applies to the response: none in the reference condition.
    pub fn delta(&self, mode_offset: Real) -> (r: Real)
        ensures
            r == self.shift(mode_offset),
    {
        match self.mode {
            Mode::Solo => Real::zero(),
            Mode::Match => mode_offset,
        }
    }

    /// The response as a number: one if it was correct, else zero.
    pub fn score(&self) -> (r: Real)
        ensures
            r == self.outcome(),
    {
        if self.correct {
            Real::one()
        } else {
            Real::zero()
        }
    }
}

/// Numerical settings for the fits.
#[derive(Clone, Copy, Debug, PartialEq, Eq, Structural)]
pub struct CalibrationSettings {
    /// Maximum iterations.
    pub max_iterations: u32,
    /// Convergence threshold on the parameter step.
    pub tolerance: Real,
    /// Largest single step, in logits: without it, one unlucky batch can throw
    /// an item across the scale before the next iteration pulls it back.
    pub max_step: Real,
    /// Smallest usable information; below this the fit is unidentified.
    pub min_information: Real,
    /// Change of difficulty beyond which a new version must be minted.
    pub version_bump_threshold: Real,
}

impl CalibrationSettings {
    /// Fifty iterations, a millionth, half a logit, a billionth and a tenth.
    pub open spec fn usual() -> CalibrationSettings {
        CalibrationSettings {
            max_iterations: 50,
            tolerance: Real { bits: 0x3eb0_c6f7_a0b5_ed8d },
            max_step: Real { bits: 0x3fe0_0000_0000_0000 },
            min_information: Real { bits: 0x3e11_2e0b_e826_d695 },
            version_bump_threshold: Real { bits: 0x3fb9_9999_9999_999a },
        }
    }

    /// Whether a step can be limited: the largest one is a number, and not
    /// negative.
    pub open spec fn usable(self) -> bool {
        self.max_step.opposite().at_most(self.max_step)
    }
}

impl Default for CalibrationSettings {
    fn default() -> (r: Self)
        ensures
            r == CalibrationSettings::usual(),
            r.usable(),
    {
        CalibrationSettings {
            max_iterations: 50,
            tolerance: Real { bits: 0x3eb0_c6f7_a0b5_ed8d },
            max_step: Real::half(),
            min_information: Real { bits: 0x3e11_2e0b_e826_d695 },
            version_bump_threshold: Real { bits: 0x3fb9_9999_9999_999a },
        }
    }
}

/// Outcome of fitting one item.
#[derive(Clone, Copy, Debug, PartialEq, Eq, Structural)]
pub struct FitResult {
    /// Refitted difficulty.
    pub difficulty: Real,
    /// Discrimination.
    pub discrimination: Real,
    /// Standard error of the difficulty estimate.
    pub se_difficulty: Real,
    /// Responses used.
    pub observations: usize,
    /// Iterations run.
    pub iterations: u32,
    /// Whether the step size fell below tolerance.
    pub converged: bool,
    /// Every response was identical, so the likelihood has no maximum. The item
    /// needs responses on both sides before its estimate means anything.
    pub separated: bool,
}

impl FitResult {
    /// Whether a fit is precise enough to act on.
    pub open spec fn usable(self) -> bool {
        self.converged && !self.separated && self.se_difficulty.finite()
    }

    /// Whether this fit is precise enough to act on.
    pub fn is_usable(&self) -> (r: bool)
        ensures
            r == self.usable(),
    {
        self.converged && !self.separated && self.se_difficulty.is_finite()
    }
}

/// How many responses were correct.
pub open spec fn correct_count(observations: Seq<Observation>) -> nat
    decreases observations.len(),
{
    if observations.len() == 0 {
        0
    } else {
        correct_count(observations.drop_last()) + if observations.last().correct {
            1nat
        } else {
            0
        }
    }
}

/// Whether all responses are identical.
pub open spec fn separated(observations: Seq<Observation>) -> bool {
    correct_count(observations) == 0 || correct_count(observations) == observations.len()
}

/// Responses are identical exactly if all of them are correct, or none is.
pub proof fn law_separated_means_identical(observations: Seq<Observation>)
    ensures
        (correct_count(observations) == 0) == (forall|i: int|
            0 <= i < observations.len() ==> !(#[trigger] observations[i]).correct),
        (correct_count(observations) == observations.len()) == (forall|i: int|
            0 <= i < observations.len() ==> (#[trigger] observations[i]).correct),
        correct_count(observations) <= observations.len(),
    decreases observations.len(),
{
    if observations.len() > 0 {
        let before = observations.drop_last();
        law_separated_means_identical(before);
        assert forall|i: int| 0 <= i < before.len() implies before[i] == observations[i] by {}
        let last = observations.len() - 1;
        if correct_count(observations) == 0 {
            assert forall|i: int| 0 <= i < observations.len() implies !(
            #[trigger] observations[i]).correct by {
                if i < last {
                    assert(!before[i].correct);
                }
            }
        }
        if correct_count(observations) == observations.len() {
            assert forall|i: int| 0 <= i < observations.len() implies (
            #[trigger] observations[i]).correct by {
                if i < last {
                    assert(before[i].correct);
                }
            }
        }
        if forall|i: int| 0 <= i < observations.len() ==> !(#[trigger] observations[i]).correct {
            assert forall|i: int| 0 <= i < before.len() implies !(#[trigger] before[i]).correct by {
                assert(!observations[i].correct);
            }
            assert(!observations[last].correct);
        }
        if forall|i: int| 0 <= i < observations.len() ==> (#[trigger] observations[i]).correct {
            assert forall|i: int| 0 <= i < before.len() implies (#[trigger] before[i]).correct by {
                assert(observations[i].correct);
            }
            assert(observations[last].correct);
        }
    }
}

/// Whether there is anything to fit: responses, and a positive discrimination.
pub open spec fn fittable(observations: Seq<Observation>, discrimination: Real) -> bool {
    observations.len() > 0 && !discrimination.at_most(Real { bits: 0 })
}

/// A fit before its first iteration: the initial parameters, an infinite standard
/// error.
pub open spec fn begun_fit(
    observations: Seq<Observation>,
    discrimination: Real,
    difficulty: Real,
) -> FitResult {
    FitResult {
        difficulty,
        discrimination,
        se_difficulty: Real { bits: 0x7ff0_0000_0000_0000 },
        observations: observations.len() as usize,
        iterations: 0,
        converged: false,
        separated: fittable(observations, discrimination) && separated(observations),
    }
}

/// A fit before its first iteration: the initial parameters, an infinite standard
/// error. The flag says whether there is anything to fit; without, this is the
/// result.
pub fn begin_fit(observations: &[Observation], discrimination: Real, difficulty: Real) -> (r: (
    FitResult,
    bool,
))
    ensures
        r.1 == fittable(observations@, discrimination),
        r.0 == begun_fit(observations@, discrimination, difficulty),
{
    let possible = observations.len() > 0 && !discrimination.le(Real::zero());
    let mut corrects: usize = 0;
    for i in 0..observations.len()
        invariant
            corrects == correct_count(observations@.take(i as int)),
            corrects <= i,
    {
        if observations[i].correct {
            corrects = corrects + 1;
        }
        assert(observations@.take(i + 1).drop_last() =~= observations@.take(i as int));
    }
    assert(observations@.take(observations@.len() as int) =~= observations@);
    (
        FitResult {
            difficulty,
            discrimination,
            se_difficulty: Real::infinity(),
            observations: observations.len(),
            iterations: 0,
            converged: false,
            separated: possible && (corrects == 0 || corrects == observations.len()),
        },
        possible,
    )
}

/// The control of an iteration: how often it ran, and whether it is over.
#[derive(Clone, Copy, Debug, PartialEq, Eq, Structural)]
pub struct Iteration {
    /// Settings of the fit.
    pub settings: CalibrationSettings,
    /// Iterations run.
    pub count: u32,
    /// Whether a step fell below tolerance.
    pub converged: bool,
    /// Whether too little information was left to go on.
    pub unidentified: bool,
}

impl Iteration {
    /// Whether another iteration is to run.
    pub open spec fn runs(self) -> bool {
        !self.converged && !self.unidentified && self.count < self.settings.max_iterations
    }

    /// An iteration that has not run yet.
    pub fn new(settings: CalibrationSettings) -> (r: Self)
        ensures
            r == (Iteration { settings, count: 0, converged: false, unidentified: false }),
    {
        Iteration { settings, count: 0, converged: false, unidentified: false }
    }

    /// Whether another iteration is to run.
    pub fn is_running(&self) -> (r: bool)
        ensures
            r == self.runs(),
    {
        !self.converged && !self.unidentified && self.count < self.settings.max_iterations
    }

    /// Begin an iteration with the information it found. Below the smallest
    /// usable one the fit is unidentified, and no step is taken.
    pub fn begin(&mut self, information: Real) -> (r: bool)
        requires
            old(self).runs(),
        ensures
            *final(self) == (Iteration {
                count: (old(self).count + 1) as u32,
                unidentified: information.below(old(self).settings.min_information),
                ..*old(self)
            }),
            r == !final(self).unidentified,
    {
        self.count = self.count + 1;
        self.unidentified = information.lt(self.settings.min_information);
        !self.unidentified
    }

    /// Begin an iteration of a fit in two parameters, with the determinant of its
    /// information and the information on the difficulty alone. Without spread
    /// in ability the first vanishes: discrimination cannot be identified then.
    pub fn begin_pair(&mut self, determinant: Real, information: Real) -> (r: bool)
        requires
            old(self).runs(),
        ensures
            *final(self) == (Iteration {
                count: (old(self).count + 1) as u32,
                unidentified: determinant.below(old(self).settings.min_information)
                    || information.below(old(self).settings.min_information),
                ..*old(self)
            }),
            r == !final(self).unidentified,
    {
        self.count = self.count + 1;
        self.unidentified = determinant.lt(self.settings.min_information) || information.lt(
            self.settings.min_information,
        );
        !self.unidentified
    }

    /// Hold a step to the largest one allowed.
    pub fn limit(&self, step: Real) -> (r: Real)
        requires
            self.settings.usable(),
        ensures
            r == step.clamped(self.settings.max_step.opposite(), self.settings.max_step),
    {
        step.clamp(self.settings.max_step.neg(), self.settings.max_step)
    }

    /// End an iteration with the step it took: one below tolerance is the last.
    pub fn end(&mut self, step: Real)
        ensures
            *final(self) == (Iteration {
                converged: step.absolute().below(old(self).settings.tolerance),
                ..*old(self)
            }),
    {
        self.converged = step.abs().lt(self.settings.tolerance);
    }

    /// End an iteration with the steps it took in two parameters: it is the last
    /// when both are below tolerance.
    pub fn end_pair(&mut self, first: Real, second: Real)
        ensures
            *final(self) == (Iteration {
                converged: first.absolute().below(old(self).settings.tolerance)
                    && second.absolute().below(old(self).settings.tolerance),
                ..*old(self)
            }),
    {
        self.converged = first.abs().lt(self.settings.tolerance) && second.abs().lt(
            self.settings.tolerance,
        );
    }

    /// The fit that an iteration ends with.
    pub open spec fn fitted(
        self,
        begun: FitResult,
        discrimination: Real,
        moved: Real,
        information: Real,
        se: Real,
    ) -> FitResult {
        FitResult {
            difficulty: moved,
            discrimination,
            se_difficulty: if self.settings.min_information.below(information) {
                se
            } else {
                Real { bits: 0x7ff0_0000_0000_0000 }
            },
            iterations: self.count,
            converged: self.converged,
            ..begun
        }
    }

    /// The fit that an iteration ends with. `moved` is the last difficulty,
    /// `information` what is left there, and `se` the standard error it gives;
    /// too little information gives none.
    pub fn finish_fit(
        &self,
        begun: FitResult,
        discrimination: Real,
        moved: Real,
        information: Real,
        se: Real,
    ) -> (r: FitResult)
        ensures
            r == self.fitted(begun, discrimination, moved, information, se),
    {
        FitResult {
            difficulty: moved,
            discrimination,
            se_difficulty: if self.settings.min_information.lt(information) {
                se
            } else {
                Real::infinity()
            },
            observations: begun.observations,
            iterations: self.count,
            converged: self.converged,
            separated: begun.separated,
        }
    }

    /// The offset fit that an iteration ends with. `information` is what is left at
    /// the last offset, and `se` the standard error it gives; too little information
    /// gives none.
    pub open spec fn finished(
        self,
        begun: ModeOffsetFit,
        offset: Real,
        information: Real,
        se: Real,
    ) -> ModeOffsetFit {
        ModeOffsetFit {
            offset,
            se: if self.settings.min_information.below(information) {
                se
            } else {
                Real { bits: 0x7ff0_0000_0000_0000 }
            },
            converged: self.converged,
            ..begun
        }
    }

    /// The offset fit that an iteration ends with.
    pub fn finish_offset(
        &self,
        begun: ModeOffsetFit,
        offset: Real,
        information: Real,
        se: Real,
    ) -> (r: ModeOffsetFit)
        ensures
            r == self.finished(begun, offset, information, se),
    {
        ModeOffsetFit {
            offset,
            se: if self.settings.min_information.lt(information) {
                se
            } else {
                Real::infinity()
            },
            observations: begun.observations,
            linking_items: begun.linking_items,
            converged: self.converged,
        }
    }
}

/// The difficulty after a step, held to the usable scale.
pub fn move_difficulty(sum: Real) -> (r: Real)
    ensures
        r == sum.clamped(difficulty_floor(), difficulty_ceiling()),
{
    place_on_scale(sum)
}

/// An iteration that ended does not run again, and one never runs more often than
/// its settings allow.
pub proof fn law_iterations_are_bounded(before: Iteration, information: Real)
    requires
        before.runs(),
    ensures
        ({
            let after = Iteration {
                count: (before.count + 1) as u32,
                unidentified: information.below(before.settings.min_information),
                ..before
            };
            &&& after.count <= before.settings.max_iterations
            &&& after.unidentified ==> !after.runs() && !after.converged
            &&& after.settings.max_iterations - after.count < before.settings.max_iterations
                - before.count
        }),
{
}

/// A limited step never goes further than the largest one allowed.
pub proof fn law_steps_are_limited(settings: CalibrationSettings, step: Real)
    requires
        settings.usable(),
        !step.not_a_number(),
    ensures
        settings.max_step.opposite().at_most(
            step.clamped(settings.max_step.opposite(), settings.max_step),
        ),
        step.clamped(settings.max_step.opposite(), settings.max_step).at_most(settings.max_step),
{
}

/// What is measured of responses at a difficulty.
#[derive(Clone, Copy, Debug, PartialEq, Eq, Structural)]
pub struct DifficultyMeasure {
    /// The step that the residuals ask for.
    pub step: Real,
    /// Information on the difficulty.
    pub information: Real,
    /// The standard error that the information gives.
    pub se: Real,
}

/// The difficulty held to its scale.
pub open spec fn on_the_scale(difficulty: Real) -> Real {
    difficulty.clamped(difficulty_floor(), difficulty_ceiling())
}

/// Where an iteration on a difficulty ends.
pub open spec fn iterated_difficulty(
    iteration: Iteration,
    difficulty: Real,
    measure: spec_fn(Real) -> DifficultyMeasure,
) -> (Iteration, Real)
    decreases iteration.settings.max_iterations - iteration.count,
{
    if !iteration.runs() {
        (iteration, difficulty)
    } else {
        let found = measure(difficulty);
        let begun = Iteration {
            count: (iteration.count + 1) as u32,
            unidentified: found.information.below(iteration.settings.min_information),
            ..iteration
        };
        if begun.unidentified {
            (begun, difficulty)
        } else {
            let step = found.step.clamped(
                iteration.settings.max_step.opposite(),
                iteration.settings.max_step,
            );
            let ended = Iteration {
                converged: step.absolute().below(iteration.settings.tolerance),
                ..begun
            };
            iterated_difficulty(ended, on_the_scale(difficulty.plus(step)), measure)
        }
    }
}

/// The difficulty refitted to responses with the discrimination held fixed.
pub open spec fn refitted_difficulty(
    observations: Seq<Observation>,
    discrimination: Real,
    initial: Real,
    mode_offset: Real,
    settings: CalibrationSettings,
    measure: spec_fn(Seq<Observation>, Real, Real, Real) -> DifficultyMeasure,
) -> FitResult {
    let begun = begun_fit(observations, discrimination, initial);
    if !fittable(observations, discrimination) {
        begun
    } else {
        let at = |difficulty: Real| measure(observations, discrimination, difficulty, mode_offset);
        let (iteration, difficulty) = iterated_difficulty(
            Iteration { settings, count: 0, converged: false, unidentified: false },
            initial,
            at,
        );
        let last = at(difficulty);
        iteration.fitted(begun, discrimination, difficulty, last.information, last.se)
    }
}

/// Refit difficulty with discrimination held fixed: step towards the difficulty at
/// which the model predicts exactly as many successes as were observed.
pub fn refit_difficulty<E: Fn(Real) -> Real, L: Fn(Real) -> Real, S: Fn(Real) -> Real>(
    observations: &[Observation],
    discrimination: Real,
    initial_difficulty: Real,
    mode_offset: Real,
    settings: &CalibrationSettings,
    functions: &Functions<E, L, S>,
) -> (r: FitResult)
    requires
        settings.usable(),
        functions.everywhere(),
    ensures
        forall|model: Model| #[trigger]
            functions.follow(model) ==> r == refitted_difficulty(
                observations@,
                discrimination,
                initial_difficulty,
                mode_offset,
                *settings,
                model.difficulty(),
            ),
{
    let (begun, possible) = begin_fit(observations, discrimination, initial_difficulty);
    if !possible {
        return begun;
    }
    let mut difficulty = initial_difficulty;
    let mut iteration = Iteration::new(*settings);
    let ghost start = iteration;
    while iteration.is_running()
        invariant
            settings.usable(),
            iteration.settings == *settings,
            functions.everywhere(),
            forall|model: Model| #[trigger]
                functions.follow(model) ==> iterated_difficulty(
                    start,
                    initial_difficulty,
                    |b: Real| (model.difficulty())(observations@, discrimination, b, mode_offset),
                ) == iterated_difficulty(
                    iteration,
                    difficulty,
                    |b: Real| (model.difficulty())(observations@, discrimination, b, mode_offset),
                ),
        ensures
            !iteration.runs(),
        decreases iteration.settings.max_iterations - iteration.count,
    {
        let found = measure_difficulty(
            observations,
            discrimination,
            difficulty,
            mode_offset,
            functions,
        );
        let ghost before = iteration;
        let ghost at = difficulty;
        if iteration.begin(found.information) {
            let step = iteration.limit(found.step);
            difficulty = move_difficulty(difficulty.sum(step));
            iteration.end(step);
        }
        assert forall|model: Model| #[trigger]
            functions.follow(model) implies iterated_difficulty(
            before,
            at,
            |b: Real| (model.difficulty())(observations@, discrimination, b, mode_offset),
        ) == iterated_difficulty(
            iteration,
            difficulty,
            |b: Real| (model.difficulty())(observations@, discrimination, b, mode_offset),
        ) by {
            assert(found == (model.difficulty())(observations@, discrimination, at, mode_offset));
        }
    }
    let last = measure_difficulty(
        observations,
        discrimination,
        difficulty,
        mode_offset,
        functions,
    );
    iteration.finish_fit(begun, discrimination, difficulty, last.information, last.se)
}

/// Without responses, or without a positive discrimination, a fit leaves the parameters
/// as they are, and is not usable.
pub proof fn law_an_empty_sample_leaves_parameters_untouched(
    observations: Seq<Observation>,
    discrimination: Real,
    logarithm: Real,
    initial: Real,
    mode_offset: Real,
    settings: CalibrationSettings,
    measure: spec_fn(Seq<Observation>, Real, Real, Real) -> DifficultyMeasure,
    measure_both: spec_fn(Seq<Observation>, Real, Real, Real) -> PairMeasure,
)
    requires
        observations.len() == 0 || discrimination.at_most(Real { bits: 0 }),
    ensures
        ({
            let one = refitted_difficulty(
                observations,
                discrimination,
                initial,
                mode_offset,
                settings,
                measure,
            );
            let both = refitted_item(
                observations,
                discrimination,
                logarithm,
                initial,
                mode_offset,
                settings,
                measure_both,
            );
            &&& one == both
            &&& one.difficulty == initial && one.discrimination == discrimination
            &&& !one.usable()
        }),
{
}

/// A fit that converged lies on the scale of difficulties, where it is a number, and
/// ran no more often than the settings allow.
pub proof fn law_a_converged_fit_lies_on_the_scale(
    observations: Seq<Observation>,
    discrimination: Real,
    initial: Real,
    mode_offset: Real,
    settings: CalibrationSettings,
    measure: spec_fn(Seq<Observation>, Real, Real, Real) -> DifficultyMeasure,
)
    ensures
        ({
            let fit = refitted_difficulty(
                observations,
                discrimination,
                initial,
                mode_offset,
                settings,
                measure,
            );
            &&& fit.iterations <= settings.max_iterations
            &&& fit.converged && !fit.difficulty.not_a_number() ==> difficulty_floor().at_most(
                fit.difficulty,
            ) && fit.difficulty.at_most(difficulty_ceiling())
        }),
{
    let at = |difficulty: Real| measure(observations, discrimination, difficulty, mode_offset);
    lemma_iterated_difficulty(
        Iteration { settings, count: 0, converged: false, unidentified: false },
        initial,
        at,
    );
}

proof fn lemma_iterated_difficulty(
    iteration: Iteration,
    difficulty: Real,
    measure: spec_fn(Real) -> DifficultyMeasure,
)
    requires
        iteration.count <= iteration.settings.max_iterations,
        iteration.converged ==> exists|x: Real| difficulty == #[trigger] on_the_scale(x),
    ensures
        ({
            let (ended, reached) = iterated_difficulty(iteration, difficulty, measure);
            &&& ended.count <= iteration.settings.max_iterations
            &&& ended.converged && !reached.not_a_number() ==> difficulty_floor().at_most(reached)
                && reached.at_most(difficulty_ceiling())
        }),
    decreases iteration.settings.max_iterations - iteration.count,
{
    if iteration.runs() {
        let found = measure(difficulty);
        let begun = Iteration {
            count: (iteration.count + 1) as u32,
            unidentified: found.information.below(iteration.settings.min_information),
            ..iteration
        };
        if !begun.unidentified {
            let step = found.step.clamped(
                iteration.settings.max_step.opposite(),
                iteration.settings.max_step,
            );
            let ended = Iteration {
                converged: step.absolute().below(iteration.settings.tolerance),
                ..begun
            };
            lemma_iterated_difficulty(ended, on_the_scale(difficulty.plus(step)), measure);
        }
    }
}

/// What is measured of responses at a discrimination and a difficulty.
#[derive(Clone, Copy, Debug, PartialEq, Eq, Structural)]
pub struct PairMeasure {
    /// The discrimination that its logarithm stands for.
    pub discrimination: Real,
    /// Determinant of the information on both.
    pub determinant: Real,
    /// Information on the difficulty alone.
    pub information: Real,
    /// The step in the logarithm of the discrimination.
    pub step_logarithm: Real,
    /// The step in the difficulty.
    pub step_difficulty: Real,
    /// The standard error of the difficulty that the information gives.
    pub se: Real,
}

/// The logarithms of the smallest and of the largest discrimination that a fit keeps
/// to: a twentieth, and three.
pub open spec fn discrimination_band() -> (Real, Real) {
    (Real { bits: LOGARITHM_OF_A_TWENTIETH }, Real { bits: LOGARITHM_OF_THREE })
}

/// The logarithm of a twentieth.
pub const LOGARITHM_OF_A_TWENTIETH: u64 = 0xc007_f742_7b73_e391;

/// The logarithm of three.
pub const LOGARITHM_OF_THREE: u64 = 0x3ff1_93ea_7aad_030b;

/// Where an iteration on a discrimination and a difficulty ends.
pub open spec fn iterated_pair(
    iteration: Iteration,
    logarithm: Real,
    difficulty: Real,
    measure: spec_fn(Real, Real) -> PairMeasure,
) -> (Iteration, Real, Real)
    decreases iteration.settings.max_iterations - iteration.count,
{
    if !iteration.runs() {
        (iteration, logarithm, difficulty)
    } else {
        let settings = iteration.settings;
        let found = measure(logarithm, difficulty);
        let begun = Iteration {
            count: (iteration.count + 1) as u32,
            unidentified: found.determinant.below(settings.min_information)
                || found.information.below(settings.min_information),
            ..iteration
        };
        if begun.unidentified {
            (begun, logarithm, difficulty)
        } else {
            let first = found.step_logarithm.clamped(settings.max_step.opposite(), settings.max_step);
            let second = found.step_difficulty.clamped(
                settings.max_step.opposite(),
                settings.max_step,
            );
            let ended = Iteration {
                converged: first.absolute().below(settings.tolerance) && second.absolute().below(
                    settings.tolerance,
                ),
                ..begun
            };
            iterated_pair(
                ended,
                logarithm.plus(first).clamped(discrimination_band().0, discrimination_band().1),
                on_the_scale(difficulty.plus(second)),
                measure,
            )
        }
    }
}

/// Discrimination and difficulty refitted to responses.
pub open spec fn refitted_item(
    observations: Seq<Observation>,
    discrimination: Real,
    logarithm: Real,
    initial: Real,
    mode_offset: Real,
    settings: CalibrationSettings,
    measure: spec_fn(Seq<Observation>, Real, Real, Real) -> PairMeasure,
) -> FitResult {
    let begun = begun_fit(observations, discrimination, initial);
    if !fittable(observations, discrimination) {
        begun
    } else {
        let at = |a: Real, b: Real| measure(observations, a, b, mode_offset);
        let (iteration, a, b) = iterated_pair(
            Iteration { settings, count: 0, converged: false, unidentified: false },
            logarithm,
            initial,
            at,
        );
        let last = at(a, b);
        iteration.fitted(begun, last.discrimination, b, last.determinant, last.se)
    }
}

/// Refit discrimination and difficulty jointly, by Fisher scoring. Discrimination is
/// estimated on its logarithm, so it cannot go negative, and is kept in a band: runaway
/// values are a symptom of a bad sample.
///
/// The information is singular exactly when the respondents have no spread in ability,
/// where discrimination cannot be identified: the iteration ends there.
pub fn refit_item<E: Fn(Real) -> Real, L: Fn(Real) -> Real, S: Fn(Real) -> Real>(
    observations: &[Observation],
    initial_discrimination: Real,
    initial_difficulty: Real,
    mode_offset: Real,
    settings: &CalibrationSettings,
    functions: &Functions<E, L, S>,
) -> (r: FitResult)
    requires
        settings.usable(),
        functions.everywhere(),
    ensures
        forall|model: Model| #[trigger]
            functions.follow(model) ==> r == refitted_item(
                observations@,
                initial_discrimination,
                (model.logarithm)(initial_discrimination),
                initial_difficulty,
                mode_offset,
                *settings,
                model.pair(),
            ),
{
    let (begun, possible) = begin_fit(observations, initial_discrimination, initial_difficulty);
    if !possible {
        return begun;
    }
    let initial_logarithm = functions.ln(initial_discrimination);
    let mut logarithm = initial_logarithm;
    let mut difficulty = initial_difficulty;
    let mut iteration = Iteration::new(*settings);
    let ghost start = iteration;
    let low = Real { bits: LOGARITHM_OF_A_TWENTIETH };
    let high = Real { bits: LOGARITHM_OF_THREE };
    while iteration.is_running()
        invariant
            settings.usable(),
            low == discrimination_band().0,
            high == discrimination_band().1,
            iteration.settings == *settings,
            functions.everywhere(),
            forall|model: Model| #[trigger]
                functions.follow(model) ==> iterated_pair(
                    start,
                    initial_logarithm,
                    initial_difficulty,
                    |a: Real, b: Real| (model.pair())(observations@, a, b, mode_offset),
                ) == iterated_pair(
                    iteration,
                    logarithm,
                    difficulty,
                    |a: Real, b: Real| (model.pair())(observations@, a, b, mode_offset),
                ),
        ensures
            !iteration.runs(),
        decreases iteration.settings.max_iterations - iteration.count,
    {
        let found = measure_pair(observations, logarithm, difficulty, mode_offset, functions);
        let ghost before = iteration;
        let ghost from = (logarithm, difficulty);
        if iteration.begin_pair(found.determinant, found.information) {
            let first = iteration.limit(found.step_logarithm);
            let second = iteration.limit(found.step_difficulty);
            logarithm = logarithm.sum(first).clamp(low, high);
            difficulty = move_difficulty(difficulty.sum(second));
            iteration.end_pair(first, second);
        }
        assert forall|model: Model| #[trigger]
            functions.follow(model) implies iterated_pair(
            before,
            from.0,
            from.1,
            |a: Real, b: Real| (model.pair())(observations@, a, b, mode_offset),
        ) == iterated_pair(
            iteration,
            logarithm,
            difficulty,
            |a: Real, b: Real| (model.pair())(observations@, a, b, mode_offset),
        ) by {
            assert(found == (model.pair())(observations@, from.0, from.1, mode_offset));
        }
    }
    let last = measure_pair(observations, logarithm, difficulty, mode_offset, functions);
    iteration.finish_fit(begun, last.discrimination, difficulty, last.determinant, last.se)
}

/// Outcome of estimating the mode offset.
#[derive(Clone, Copy, Debug, PartialEq, Eq, Structural)]
pub struct ModeOffsetFit {
    /// Estimated offset for match conditions.
    pub offset: Real,
    /// Standard error.
    pub se: Real,
    /// Match responses used.
    pub observations: usize,
    /// Linking items that contributed at least one match response.
    pub linking_items: usize,
    /// Whether the iteration converged.
    pub converged: bool,
}

impl ModeOffsetFit {
    /// No offset, for when there is nothing to estimate from.
    pub fn none() -> (r: Self)
        ensures
            r == (ModeOffsetFit {
                offset: Real { bits: 0 },
                se: Real { bits: 0x7ff0_0000_0000_0000 },
                observations: 0,
                linking_items: 0,
                converged: false,
            }),
    {
        ModeOffsetFit {
            offset: Real::zero(),
            se: Real::infinity(),
            observations: 0,
            linking_items: 0,
            converged: false,
        }
    }

    /// The offset to apply. One that is unidentified or did not converge is not:
    /// it would shift every match-observed item by an arbitrary amount.
    pub open spec fn applied(self) -> Real {
        if self.converged {
            self.offset
        } else {
            Real { bits: 0 }
        }
    }

    /// The offset to apply.
    pub fn apply(&self) -> (r: Real)
        ensures
            r == self.applied(),
    {
        if self.converged {
            self.offset
        } else {
            Real::zero()
        }
    }
}

/// The responses collected under one condition.
pub open spec fn in_mode(observations: Seq<Observation>, mode: Mode) -> Seq<Observation> {
    observations.filter(|o: Observation| o.mode == mode)
}

/// Responses gathered for one item.
#[derive(Clone, Debug, PartialEq, Eq)]
pub struct ItemObservations {
    /// Which item.
    pub item_id: ItemId,
    /// Current parameters.
    pub params: ItemParameters,
    /// Current lifecycle state.
    pub state: CalibrationState,
    /// Responses, chronologically ordered.
    pub observations: Vec<Observation>,
}

/// The responses collected under one condition.
pub fn with_mode(observations: &[Observation], mode: Mode) -> (r: Vec<Observation>)
    ensures
        r@ == in_mode(observations@, mode),
{
    let ghost keep = |o: Observation| o.mode == mode;
    let mut out: Vec<Observation> = Vec::new();
    proof {
        reveal(Seq::filter);
    }
    assert(observations@.take(0).filter(keep) =~= Seq::<Observation>::empty());
    for i in 0..observations.len()
        invariant
            keep == (|o: Observation| o.mode == mode),
            out@ == observations@.take(i as int).filter(keep),
    {
        let observation = observations[i];
        proof {
            reveal(Seq::filter);
            assert(observations@.take(i + 1).drop_last() =~= observations@.take(i as int));
        }
        if observation.mode == mode {
            out.push(observation);
        }
    }
    assert(observations@.take(observations@.len() as int) =~= observations@);
    out
}

impl ItemObservations {
    /// Responses collected under one condition.
    pub fn by_mode(&self, mode: Mode) -> (r: Vec<Observation>)
        ensures
            r@ == in_mode(self.observations@, mode),
    {
        with_mode(self.observations.as_slice(), mode)
    }
}

/// Every response belongs to one condition or the other, so the two parts have
/// as many responses as the whole.
pub proof fn law_modes_part_the_responses(observations: Seq<Observation>)
    ensures
        in_mode(observations, Mode::Solo).len() + in_mode(observations, Mode::Match).len()
            == observations.len(),
    decreases observations.len(),
{
    reveal(Seq::filter);
    if observations.len() > 0 {
        law_modes_part_the_responses(observations.drop_last());
    }
}

/// What pins a linking item does not depend on how it went under a deadline: a
/// further match response leaves its solo responses as they are, and no match
/// response is among them.
pub proof fn law_match_responses_do_not_move_a_pin(
    observations: Seq<Observation>,
    further: Observation,
)
    requires
        further.mode is Match,
    ensures
        in_mode(observations.push(further), Mode::Solo) == in_mode(observations, Mode::Solo),
        forall|i: int|
            0 <= i < in_mode(observations, Mode::Solo).len() ==> (#[trigger] in_mode(
                observations,
                Mode::Solo,
            )[i]).mode is Solo,
{
    let keep = |o: Observation| o.mode == Mode::Solo;
    observations.filter_lemma(keep);
    reveal(Seq::filter);
    assert(observations.push(further).drop_last() =~= observations);
}

/// An item whose difficulty is already pinned, contributing to the offset estimate.
#[derive(Clone, Debug)]
pub struct LinkingItem {
    /// Discrimination, held fixed.
    pub discrimination: Real,
    /// Difficulty, from solo responses only.
    pub difficulty: Real,
    /// All responses; only the match ones are used.
    pub observations: Vec<Observation>,
}

/// A linking item, by value.
pub struct LinkingView {
    /// Discrimination, held fixed.
    pub discrimination: Real,
    /// Difficulty, from solo responses only.
    pub difficulty: Real,
    /// All responses.
    pub observations: Seq<Observation>,
}

impl View for LinkingItem {
    type V = LinkingView;

    open spec fn view(&self) -> LinkingView {
        LinkingView {
            discrimination: self.discrimination,
            difficulty: self.difficulty,
            observations: self.observations@,
        }
    }
}

impl LinkingView {
    /// The item with its match responses alone.
    pub open spec fn matched(self) -> LinkingView {
        LinkingView { observations: in_mode(self.observations, Mode::Match), ..self }
    }
}

impl LinkingItem {
    /// An item pinned by a fit, with all of its responses.
    pub fn pinned(item: &ItemObservations, fit: &FitResult) -> (r: Self)
        ensures
            r@ == (LinkingView {
                discrimination: fit.discrimination,
                difficulty: fit.difficulty,
                observations: item.observations@,
            }),
    {
        let mut observations: Vec<Observation> = Vec::new();
        for i in 0..item.observations.len()
            invariant
                observations@ == item.observations@.take(i as int),
        {
            observations.push(item.observations[i]);
        }
        assert(observations@ =~= item.observations@);
        LinkingItem {
            discrimination: fit.discrimination,
            difficulty: fit.difficulty,
            observations,
        }
    }
}

/// Linking items, by value.
pub open spec fn linking_view(items: Seq<LinkingItem>) -> Seq<LinkingView> {
    Seq::new(items.len(), |i: int| items[i]@)
}

/// Linking items with their match responses alone.
pub open spec fn matched_parts(items: Seq<LinkingView>) -> Seq<LinkingView> {
    Seq::new(items.len(), |i: int| items[i].matched())
}

/// How many match responses some items have.
pub open spec fn match_responses(items: Seq<LinkingView>) -> nat
    decreases items.len(),
{
    if items.len() == 0 {
        0
    } else {
        match_responses(items.drop_last()) + items.last().matched().observations.len()
    }
}

/// How many items have any.
pub open spec fn contributing_items(items: Seq<LinkingView>) -> nat
    decreases items.len(),
{
    if items.len() == 0 {
        0
    } else {
        contributing_items(items.drop_last()) + if items.last().matched().observations.len() > 0 {
            1nat
        } else {
            0
        }
    }
}

/// An offset fit before its first iteration.
pub open spec fn begun_offset(linking: Seq<LinkingView>, initial: Real) -> ModeOffsetFit {
    ModeOffsetFit {
        offset: initial,
        se: Real { bits: 0x7ff0_0000_0000_0000 },
        observations: match_responses(linking) as usize,
        linking_items: contributing_items(linking) as usize,
        converged: false,
    }
}

/// An offset fit before its first iteration. Without any match response there is
/// nothing to estimate from, and this is the result.
pub fn begin_offset(linking: &[LinkingItem], initial: Real) -> (r: ModeOffsetFit)
    requires
        match_responses(linking_view(linking@)) <= usize::MAX,
    ensures
        r == begun_offset(linking_view(linking@), initial),
{
    let ghost items = linking_view(linking@);
    let mut used: usize = 0;
    let mut contributing: usize = 0;
    for i in 0..linking.len()
        invariant
            items == linking_view(linking@),
            match_responses(items) <= usize::MAX,
            used == match_responses(items.take(i as int)),
            contributing == contributing_items(items.take(i as int)),
            contributing <= i,
    {
        let matched = with_mode(linking[i].observations.as_slice(), Mode::Match);
        assert(items.take(i + 1).drop_last() =~= items.take(i as int));
        assert(items.take(i + 1).last() == linking@[i as int]@);
        proof {
            lemma_match_responses_grow(items, i + 1);
        }
        if matched.len() > 0 {
            contributing = contributing + 1;
            used = used + matched.len();
        }
    }
    assert(items.take(linking@.len() as int) =~= items);
    ModeOffsetFit {
        offset: initial,
        se: Real::infinity(),
        observations: used,
        linking_items: contributing,
        converged: false,
    }
}

/// What is measured of linking items at an offset.
#[derive(Clone, Copy, Debug, PartialEq, Eq, Structural)]
pub struct OffsetMeasure {
    /// Sum of the residuals, each weighed by its item's discrimination.
    pub numerator: Real,
    /// Fisher information on the offset.
    pub information: Real,
    /// The standard error that the information gives.
    pub se: Real,
}

/// Where an iteration on an offset ends.
pub open spec fn iterated(
    parts: Seq<LinkingView>,
    iteration: Iteration,
    offset: Real,
    measure: spec_fn(Seq<LinkingView>, Real) -> OffsetMeasure,
) -> (Iteration, Real)
    decreases iteration.settings.max_iterations - iteration.count,
{
    if !iteration.runs() {
        (iteration, offset)
    } else {
        let found = measure(parts, offset);
        let begun = Iteration {
            count: (iteration.count + 1) as u32,
            unidentified: found.information.below(iteration.settings.min_information),
            ..iteration
        };
        if begun.unidentified {
            (begun, offset)
        } else {
            let step = found.numerator.over(found.information).clamped(
                iteration.settings.max_step.opposite(),
                iteration.settings.max_step,
            );
            let ended = Iteration {
                converged: step.absolute().below(iteration.settings.tolerance),
                ..begun
            };
            iterated(parts, ended, offset.plus(step), measure)
        }
    }
}

/// The offset estimated from linking items: from their match responses alone, by as
/// many steps as the settings allow.
pub open spec fn estimated_offset(
    linking: Seq<LinkingView>,
    initial: Real,
    settings: CalibrationSettings,
    measure: spec_fn(Seq<LinkingView>, Real) -> OffsetMeasure,
) -> ModeOffsetFit {
    let begun = begun_offset(linking, initial);
    if match_responses(linking) == 0 {
        begun
    } else {
        let parts = matched_parts(linking);
        let (iteration, offset) = iterated(
            parts,
            Iteration { settings, count: 0, converged: false, unidentified: false },
            initial,
            measure,
        );
        let last = measure(parts, offset);
        iteration.finished(begun, offset, last.information, last.se)
    }
}

fn matched_items(linking: &[LinkingItem]) -> (r: Vec<LinkingItem>)
    ensures
        linking_view(r@) == matched_parts(linking_view(linking@)),
{
    let mut parts: Vec<LinkingItem> = Vec::new();
    for i in 0..linking.len()
        invariant
            parts@.len() == i,
            forall|j: int| 0 <= j < i ==> (#[trigger] parts@[j])@ == linking@[j]@.matched(),
    {
        let item = &linking[i];
        parts.push(
            LinkingItem {
                discrimination: item.discrimination,
                difficulty: item.difficulty,
                observations: with_mode(item.observations.as_slice(), Mode::Match),
            },
        );
    }
    assert(linking_view(parts@) =~= matched_parts(linking_view(linking@)));
    parts
}

/// Estimate the mode offset from linking items' match responses.
///
/// Only meaningful for items whose difficulty was fixed by solo responses: of items
/// seen under a deadline alone, offset and difficulty are not separately identified.
pub fn estimate_mode_offset<E: Fn(Real) -> Real, L: Fn(Real) -> Real, S: Fn(Real) -> Real>(
    linking: &[LinkingItem],
    initial_offset: Real,
    settings: &CalibrationSettings,
    functions: &Functions<E, L, S>,
) -> (r: ModeOffsetFit)
    requires
        settings.usable(),
        match_responses(linking_view(linking@)) <= usize::MAX,
        functions.everywhere(),
    ensures
        forall|model: Model| #[trigger]
            functions.follow(model) ==> r == estimated_offset(
                linking_view(linking@),
                initial_offset,
                *settings,
                model.offset(),
            ),
{
    let begun = begin_offset(linking, initial_offset);
    if begun.observations == 0 {
        return begun;
    }
    let parts = matched_items(linking);
    let ghost shown = linking_view(parts@);
    let mut offset = initial_offset;
    let mut iteration = Iteration::new(*settings);
    let ghost start = iteration;
    while iteration.is_running()
        invariant
            settings.usable(),
            iteration.settings == *settings,
            shown == linking_view(parts@),
            functions.everywhere(),
            forall|model: Model| #[trigger]
                functions.follow(model) ==> iterated(shown, start, initial_offset, model.offset())
                    == iterated(shown, iteration, offset, model.offset()),
        ensures
            !iteration.runs(),
        decreases iteration.settings.max_iterations - iteration.count,
    {
        let found = measure_offset(&parts, offset, functions);
        let ghost before = iteration;
        let ghost at = offset;
        if iteration.begin(found.information) {
            let step = iteration.limit(found.numerator.divide(found.information));
            offset = offset.sum(step);
            iteration.end(step);
        }
        assert forall|model: Model| #[trigger]
            functions.follow(model) implies iterated(shown, before, at, model.offset()) == iterated(
            shown,
            iteration,
            offset,
            model.offset(),
        ) by {
            assert(found == (model.offset())(shown, at));
        }
    }
    let last = measure_offset(&parts, offset, functions);
    iteration.finish_offset(begun, offset, last.information, last.se)
}

/// What is estimated under a deadline does not depend on solo responses: items with
/// the same parameters and the same match responses give the same estimate, whatever
/// their solo responses are and whatever is made of match responses.
pub proof fn law_solo_responses_do_not_move_the_offset(
    linking: Seq<LinkingView>,
    others: Seq<LinkingView>,
    initial: Real,
    settings: CalibrationSettings,
    measure: spec_fn(Seq<LinkingView>, Real) -> OffsetMeasure,
)
    requires
        others.len() == linking.len(),
        forall|i: int|
            0 <= i < linking.len() ==> (#[trigger] others[i]).matched() == linking[i].matched(),
    ensures
        estimated_offset(others, initial, settings, measure) == estimated_offset(
            linking,
            initial,
            settings,
            measure,
        ),
        match_responses(others) == match_responses(linking),
        contributing_items(others) == contributing_items(linking),
{
    lemma_counts_of_matched_parts(linking, others);
    assert(matched_parts(others) =~= matched_parts(linking));
}

/// Taking every solo response out of every item leaves the estimate as it is.
pub proof fn law_the_offset_is_estimated_without_solo_responses(
    linking: Seq<LinkingView>,
    initial: Real,
    settings: CalibrationSettings,
    measure: spec_fn(Seq<LinkingView>, Real) -> OffsetMeasure,
)
    ensures
        estimated_offset(matched_parts(linking), initial, settings, measure) == estimated_offset(
            linking,
            initial,
            settings,
            measure,
        ),
{
    let others = matched_parts(linking);
    assert forall|i: int| 0 <= i < linking.len() implies (#[trigger] others[i]).matched()
        == linking[i].matched() by {
        let keep = |o: Observation| o.mode == Mode::Match;
        linking[i].observations.filter_lemma(keep);
        lemma_filter_of_kept(in_mode(linking[i].observations, Mode::Match), keep);
    }
    law_solo_responses_do_not_move_the_offset(linking, others, initial, settings, measure);
}

proof fn lemma_counts_of_matched_parts(linking: Seq<LinkingView>, others: Seq<LinkingView>)
    requires
        others.len() == linking.len(),
        forall|i: int|
            0 <= i < linking.len() ==> (#[trigger] others[i]).matched() == linking[i].matched(),
    ensures
        match_responses(others) == match_responses(linking),
        contributing_items(others) == contributing_items(linking),
    decreases linking.len(),
{
    if linking.len() > 0 {
        assert(others[linking.len() - 1] == others.last());
        assert forall|i: int| 0 <= i < linking.len() - 1 implies (
        #[trigger] others.drop_last()[i]).matched() == linking.drop_last()[i].matched() by {
            assert(others[i] == others.drop_last()[i]);
        }
        lemma_counts_of_matched_parts(linking.drop_last(), others.drop_last());
    }
}

/// A solo response, wherever it stands among the others, is not among the match
/// responses: they are the same with it, without it, and without any solo response.
pub proof fn law_solo_responses_are_no_match_responses(
    before: Seq<Observation>,
    solo: Observation,
    after: Seq<Observation>,
)
    requires
        solo.mode is Solo,
    ensures
        in_mode(before.push(solo) + after, Mode::Match) == in_mode(before + after, Mode::Match),
        in_mode(in_mode(before + after, Mode::Match), Mode::Match) == in_mode(before + after, Mode::Match),
{
    let keep = |o: Observation| o.mode == Mode::Match;
    lemma_filter_joins(before.push(solo), after, keep);
    lemma_filter_joins(before, after, keep);
    assert(before.push(solo).filter(keep) == before.filter(keep)) by {
        reveal(Seq::filter);
        assert(before.push(solo).drop_last() =~= before);
    }
    let all = before + after;
    all.filter_lemma(keep);
    lemma_filter_of_kept(all.filter(keep), keep);
}

proof fn lemma_filter_joins(a: Seq<Observation>, b: Seq<Observation>, keep: spec_fn(Observation) -> bool)
    ensures
        (a + b).filter(keep) == a.filter(keep) + b.filter(keep),
    decreases b.len(),
{
    reveal(Seq::filter);
    if b.len() == 0 {
        assert(a + b =~= a);
        assert(a.filter(keep) + b.filter(keep) =~= a.filter(keep));
    } else {
        lemma_filter_joins(a, b.drop_last(), keep);
        assert((a + b).drop_last() =~= a + b.drop_last());
        assert(a.filter(keep) + b.drop_last().filter(keep).push(b.last()) =~= (a.filter(keep)
            + b.drop_last().filter(keep)).push(b.last()));
    }
}

proof fn lemma_filter_of_kept(kept: Seq<Observation>, keep: spec_fn(Observation) -> bool)
    requires
        forall|i: int| 0 <= i < kept.len() ==> keep(#[trigger] kept[i]),
    ensures
        kept.filter(keep) == kept,
    decreases kept.len(),
{
    reveal(Seq::filter);
    if kept.len() > 0 {
        lemma_filter_of_kept(kept.drop_last(), keep);
        assert(keep(kept[kept.len() - 1]));
        assert(kept.drop_last().push(kept.last()) =~= kept);
    } else {
        assert(kept.filter(keep) =~= kept);
    }
}

/// Without a match response there is nothing to estimate from: the fit stays where it
/// began, infinitely uncertain, has not converged, and is not applied.
pub proof fn law_without_match_responses_there_is_no_offset(
    linking: Seq<LinkingView>,
    initial: Real,
    settings: CalibrationSettings,
    measure: spec_fn(Seq<LinkingView>, Real) -> OffsetMeasure,
)
    requires
        match_responses(linking) == 0,
    ensures
        estimated_offset(linking, initial, settings, measure) == (ModeOffsetFit {
            offset: initial,
            se: Real { bits: 0x7ff0_0000_0000_0000 },
            observations: 0,
            linking_items: 0,
            converged: false,
        }),
        estimated_offset(linking, initial, settings, measure).applied() == (Real { bits: 0 }),
    decreases linking.len(),
{
    if linking.len() > 0 {
        law_without_match_responses_there_is_no_offset(
            linking.drop_last(),
            initial,
            settings,
            measure,
        );
    }
}

proof fn lemma_match_responses_grow(items: Seq<LinkingView>, n: int)
    requires
        0 <= n <= items.len(),
    ensures
        match_responses(items.take(n)) <= match_responses(items),
    decreases items.len() - n,
{
    if n < items.len() {
        lemma_match_responses_grow(items, n + 1);
        assert(items.take(n + 1).drop_last() =~= items.take(n));
    } else {
        assert(items.take(n) =~= items);
    }
}

/// Split-half drift check: how far two estimates are apart, in pooled standard
/// errors.
#[derive(Clone, Copy, Debug, PartialEq, Eq, Structural)]
pub struct DriftReport {
    /// Difficulty fitted from the earlier half.
    pub early_difficulty: Real,
    /// Difficulty fitted from the later half.
    pub late_difficulty: Real,
    /// Distance of the two, in pooled standard errors.
    pub z: Real,
}

impl DriftReport {
    /// Whether the two halves disagree beyond two standard errors.
    pub fn is_drifting(&self) -> (r: bool)
        ensures
            r == (Real { bits: 0x4000_0000_0000_0000 }).below(self.z),
    {
        (Real { bits: 0x4000_0000_0000_0000 }).lt(self.z)
    }
}

/// Where a response stream is cut into an earlier and a later half; not at all
/// when it is too thin.
pub fn drift_split(observations: &[Observation]) -> (r: Option<usize>)
    ensures
        r == if observations@.len() < 4 {
            None
        } else {
            Some((observations@.len() / 2) as usize)
        },
{
    if observations.len() < 4 {
        None
    } else {
        Some(observations.len() / 2)
    }
}

/// What two half fits with a pooled standard error say about drift. Two fits that are
/// not both usable, or whose pooled error is no positive number, say nothing.
pub open spec fn judged_drift(early: FitResult, late: FitResult, pooled: Real) -> Option<DriftReport> {
    if early.usable() && late.usable() && !pooled.at_most(Real { bits: 0 }) && pooled.finite() {
        Some(
            DriftReport {
                early_difficulty: early.difficulty,
                late_difficulty: late.difficulty,
                z: late.difficulty.minus(early.difficulty).absolute().over(pooled),
            },
        )
    } else {
        None
    }
}

/// What two half fits say about drift.
pub fn judge_drift(early: &FitResult, late: &FitResult, pooled: Real) -> (r: Option<DriftReport>)
    ensures
        r == judged_drift(*early, *late, pooled),
{
    if !early.is_usable() || !late.is_usable() {
        return None;
    }
    if pooled.le(Real::zero()) || !pooled.is_finite() {
        return None;
    }
    Some(
        DriftReport {
            early_difficulty: early.difficulty,
            late_difficulty: late.difficulty,
            z: late.difficulty.subtract(early.difficulty).abs().divide(pooled),
        },
    )
}

/// What a response stream says about drift: both halves of it are fitted, from the same
/// parameters, and compared. A stream that is too thin says nothing.
pub open spec fn drift_of(
    observations: Seq<Observation>,
    discrimination: Real,
    difficulty: Real,
    mode_offset: Real,
    settings: CalibrationSettings,
    measure: spec_fn(Seq<Observation>, Real, Real, Real) -> DifficultyMeasure,
    pooled: spec_fn(Real, Real) -> Real,
) -> Option<DriftReport> {
    if observations.len() < 4 {
        None
    } else {
        let middle = observations.len() as int / 2;
        let early = refitted_difficulty(
            observations.subrange(0, middle),
            discrimination,
            difficulty,
            mode_offset,
            settings,
            measure,
        );
        let late = refitted_difficulty(
            observations.subrange(middle, observations.len() as int),
            discrimination,
            difficulty,
            mode_offset,
            settings,
            measure,
        );
        judged_drift(early, late, pooled(early.se_difficulty, late.se_difficulty))
    }
}

/// Detect drift over time: refit the earlier and the later half of a chronological
/// stream, and tell how far apart they are in pooled standard errors. Nothing where
/// either half is too thin or too degenerate to fit.
pub fn detect_drift<E: Fn(Real) -> Real, L: Fn(Real) -> Real, S: Fn(Real) -> Real>(
    observations: &[Observation],
    discrimination: Real,
    difficulty: Real,
    mode_offset: Real,
    settings: &CalibrationSettings,
    functions: &Functions<E, L, S>,
) -> (r: Option<DriftReport>)
    requires
        settings.usable(),
        functions.everywhere(),
    ensures
        forall|model: Model| #[trigger]
            functions.follow(model) ==> r == drift_of(
                observations@,
                discrimination,
                difficulty,
                mode_offset,
                *settings,
                model.difficulty(),
                model.pooled(),
            ),
{
    let middle: usize = match drift_split(observations) {
        Some(middle) => middle,
        None => {
            return None;
        },
    };
    let early = refit_difficulty(
        slice_subrange(observations, 0, middle),
        discrimination,
        difficulty,
        mode_offset,
        settings,
        functions,
    );
    let late = refit_difficulty(
        slice_subrange(observations, middle, observations.len()),
        discrimination,
        difficulty,
        mode_offset,
        settings,
        functions,
    );
    let pooled = pool_errors(early.se_difficulty, late.se_difficulty, functions);
    judge_drift(&early, &late, pooled)
}

/// What is measured of how well a response fits.
#[derive(Clone, Copy, Debug, PartialEq, Eq, Structural)]
pub struct ResidualMeasure {
    /// Variance of the response under the model.
    pub variance: Real,
    /// Its squared standardized residual.
    pub squared: Real,
}

/// A millionth. A response of a smaller variance is near-certain: it carries almost no
/// information, and would dominate a sum through division by a vanishing variance.
pub const LEAST_VARIANCE: u64 = 0x3eb0_c6f7_a0b5_ed8d;

/// The sum of squared standardized residuals, and how many were counted.
pub open spec fn residuals_of(
    observations: Seq<Observation>,
    measure: spec_fn(Observation) -> ResidualMeasure,
) -> (Real, nat)
    decreases observations.len(),
{
    if observations.len() == 0 {
        (Real { bits: 0 }, 0)
    } else {
        let (total, counted) = residuals_of(observations.drop_last(), measure);
        let found = measure(observations.last());
        if found.variance.below(Real { bits: LEAST_VARIANCE }) {
            (total, counted)
        } else {
            (total.plus(found.squared), counted + 1)
        }
    }
}

/// The mean of squared standardized residuals; one, as for data that fits the model,
/// where none was counted.
pub open spec fn outfit_of(
    observations: Seq<Observation>,
    discrimination: Real,
    difficulty: Real,
    mode_offset: Real,
    measure: spec_fn(Observation, Real, Real, Real) -> ResidualMeasure,
) -> Real {
    let (total, counted) = residuals_of(
        observations,
        |observation: Observation| measure(observation, discrimination, difficulty, mode_offset),
    );
    if counted == 0 {
        Real { bits: 0x3ff0_0000_0000_0000 }
    } else {
        total.over(Real::from_count(counted))
    }
}

/// Mean squared standardized residual. Values well above one mean that the item behaves
/// erratically.
pub fn outfit<E: Fn(Real) -> Real, L: Fn(Real) -> Real, S: Fn(Real) -> Real>(
    observations: &[Observation],
    discrimination: Real,
    difficulty: Real,
    mode_offset: Real,
    functions: &Functions<E, L, S>,
) -> (r: Real)
    requires
        functions.everywhere(),
    ensures
        forall|model: Model| #[trigger]
            functions.follow(model) ==> r == outfit_of(
                observations@,
                discrimination,
                difficulty,
                mode_offset,
                model.residuals(),
            ),
{
    let mut total = Real::zero();
    let mut counted: usize = 0;
    for i in 0..observations.len()
        invariant
            counted <= i,
            functions.everywhere(),
            forall|model: Model| #[trigger]
                functions.follow(model) ==> residuals_of(
                    observations@.take(i as int),
                    |observation: Observation|
                        (model.residuals())(observation, discrimination, difficulty, mode_offset),
                ) == (total, counted as nat),
    {
        let found = measure_residual(
            &observations[i],
            discrimination,
            difficulty,
            mode_offset,
            functions,
        );
        let ghost before = (total, counted as nat);
        if !found.variance.lt(Real { bits: LEAST_VARIANCE }) {
            total = total.sum(found.squared);
            counted = counted + 1;
        }
        assert(observations@.take(i + 1).drop_last() =~= observations@.take(i as int));
        assert forall|model: Model| #[trigger]
            functions.follow(model) implies residuals_of(
            observations@.take(i + 1),
            |observation: Observation|
                (model.residuals())(observation, discrimination, difficulty, mode_offset),
        ) == (total, counted as nat) by {
            let at = |observation: Observation|
                (model.residuals())(observation, discrimination, difficulty, mode_offset);
            assert(residuals_of(observations@.take(i as int), at) == before);
            assert(found == at(observations@[i as int]));
        }
    }
    assert(observations@.take(observations@.len() as int) =~= observations@);
    if counted == 0 {
        Real::one()
    } else {
        total.divide(Real::of_count(counted as u64))
    }
}

/// Thresholds governing an item's progression through the calibration lifecycle.
#[derive(Clone, Copy, Debug, PartialEq, Eq, Structural)]
pub struct PromotionPolicy {
    /// Responses needed to go online.
    pub online_min_observations: usize,
    /// Standard error needed to go online.
    pub online_max_se: Real,
    /// Responses needed to count as calibrated.
    pub calibrated_min_observations: usize,
    /// Standard error needed to count as calibrated.
    pub calibrated_max_se: Real,
    /// Discrimination at or below which an item is withdrawn.
    pub retire_below_discrimination: Real,
    /// Misfit above which an item is withdrawn.
    pub retire_above_outfit: Real,
}

impl PromotionPolicy {
    /// Thirty responses and 0.50, two hundred and 0.25, discrimination 0.2,
    /// misfit 2.
    pub open spec fn usual() -> PromotionPolicy {
        PromotionPolicy {
            online_min_observations: 30,
            online_max_se: Real { bits: 0x3fe0_0000_0000_0000 },
            calibrated_min_observations: 200,
            calibrated_max_se: Real { bits: 0x3fd0_0000_0000_0000 },
            retire_below_discrimination: Real { bits: 0x3fc9_9999_9999_999a },
            retire_above_outfit: Real { bits: 0x4000_0000_0000_0000 },
        }
    }

    /// Whether a usable fit withdraws its item.
    pub open spec fn withdraws(self, fit: FitResult, outfit: Real) -> bool {
        fit.discrimination.at_most(self.retire_below_discrimination)
            || self.retire_above_outfit.below(outfit)
    }

    /// An item's next lifecycle state.
    pub open spec fn next(self, current: CalibrationState, fit: FitResult, outfit: Real) -> CalibrationState {
        if current is Retired {
            CalibrationState::Retired
        } else if !fit.usable() {
            current
        } else if self.withdraws(fit, outfit) {
            CalibrationState::Retired
        } else if fit.observations >= self.calibrated_min_observations && fit.se_difficulty.at_most(
            self.calibrated_max_se,
        ) {
            CalibrationState::Calibrated
        } else if fit.observations >= self.online_min_observations && fit.se_difficulty.at_most(
            self.online_max_se,
        ) {
            CalibrationState::Online
        } else {
            current
        }
    }

    /// Decide an item's next lifecycle state.
    ///
    /// Retirement is checked first and is one-way: an item that has demonstrably
    /// stopped measuring is not rescued by a favourable sample size. A separated
    /// or unconverged fit says nothing, and holds the position.
    pub fn next_state(&self, current: CalibrationState, fit: &FitResult, outfit: Real) -> (r:
        CalibrationState)
        ensures
            r == self.next(current, *fit, outfit),
    {
        if current == CalibrationState::Retired {
            return CalibrationState::Retired;
        }
        if !fit.is_usable() {
            return current;
        }
        if fit.discrimination.le(self.retire_below_discrimination) || self.retire_above_outfit.lt(
            outfit,
        ) {
            return CalibrationState::Retired;
        }
        if fit.observations >= self.calibrated_min_observations && fit.se_difficulty.le(
            self.calibrated_max_se,
        ) {
            CalibrationState::Calibrated
        } else if fit.observations >= self.online_min_observations && fit.se_difficulty.le(
            self.online_max_se,
        ) {
            CalibrationState::Online
        } else {
            current
        }
    }
}

impl Default for PromotionPolicy {
    fn default() -> (r: Self)
        ensures
            r == PromotionPolicy::usual(),
    {
        PromotionPolicy {
            online_min_observations: 30,
            online_max_se: Real::half(),
            calibrated_min_observations: 200,
            calibrated_max_se: Real { bits: 0x3fd0_0000_0000_0000 },
            retire_below_discrimination: Real { bits: 0x3fc9_9999_9999_999a },
            retire_above_outfit: Real { bits: 0x4000_0000_0000_0000 },
        }
    }
}

/// Retirement is one-way, whatever the fit.
pub proof fn law_retirement_is_one_way(policy: PromotionPolicy, fit: FitResult, outfit: Real)
    ensures
        policy.next(CalibrationState::Retired, fit, outfit) is Retired,
{
}

/// A fit that is separated, unconverged or without a standard error moves no item.
pub proof fn law_an_unusable_fit_holds_position(
    policy: PromotionPolicy,
    current: CalibrationState,
    fit: FitResult,
    outfit: Real,
)
    requires
        fit.separated || !fit.converged || !fit.se_difficulty.finite(),
    ensures
        policy.next(current, fit, outfit) == current,
{
}

/// No item becomes calibrated without a usable fit, enough responses and a small
/// enough standard error.
pub proof fn law_calibration_is_earned(
    policy: PromotionPolicy,
    current: CalibrationState,
    fit: FitResult,
    outfit: Real,
)
    requires
        !(current is Calibrated),
        policy.next(current, fit, outfit) is Calibrated,
    ensures
        fit.usable(),
        fit.observations >= policy.calibrated_min_observations,
        fit.se_difficulty.at_most(policy.calibrated_max_se),
        !policy.withdraws(fit, outfit),
{
}

/// An item goes online only by earning it: its fit is usable and does not withdraw it,
/// rests on enough responses, and is precise enough. More responses do not make up for
/// a standard error, nor a small one for responses.
pub proof fn law_going_online_is_earned(
    policy: PromotionPolicy,
    current: CalibrationState,
    fit: FitResult,
    outfit: Real,
)
    requires
        !(current is Online),
        policy.next(current, fit, outfit) is Online,
    ensures
        !(current is Retired),
        fit.converged,
        !fit.separated,
        fit.se_difficulty.finite(),
        fit.observations >= policy.online_min_observations,
        fit.se_difficulty.rank() <= policy.online_max_se.rank(),
        !policy.online_max_se.not_a_number(),
        !fit.discrimination.at_most(policy.retire_below_discrimination),
        !policy.retire_above_outfit.below(outfit),
{
}

/// An item that has earned a state is given it: enough responses and enough precision for
/// calibration make a usable item calibrated, and short of that, enough for going online
/// put it online.
pub proof fn law_what_is_earned_is_given(
    policy: PromotionPolicy,
    current: CalibrationState,
    fit: FitResult,
    outfit: Real,
)
    requires
        !(current is Retired),
        fit.converged && !fit.separated && fit.se_difficulty.finite(),
        policy.retire_below_discrimination.below(fit.discrimination),
        outfit.at_most(policy.retire_above_outfit),
    ensures
        fit.observations >= policy.calibrated_min_observations && fit.se_difficulty.at_most(
            policy.calibrated_max_se,
        ) ==> policy.next(current, fit, outfit) is Calibrated,
        fit.observations >= policy.online_min_observations && fit.se_difficulty.at_most(
            policy.online_max_se,
        ) && (fit.observations < policy.calibrated_min_observations
            || policy.calibrated_max_se.below(fit.se_difficulty)) ==> policy.next(
            current,
            fit,
            outfit,
        ) is Online,
        (fit.observations < policy.online_min_observations || policy.online_max_se.below(
            fit.se_difficulty,
        )) && (fit.observations < policy.calibrated_min_observations
            || policy.calibrated_max_se.below(fit.se_difficulty)) ==> policy.next(
            current,
            fit,
            outfit,
        ) == current,
{
}

/// An item is retired exactly where it was before, or where a usable fit finds it not to
/// discriminate, or to behave erratically.
pub proof fn law_retirement_has_a_reason(
    policy: PromotionPolicy,
    current: CalibrationState,
    fit: FitResult,
    outfit: Real,
)
    ensures
        policy.next(current, fit, outfit) is Retired <==> current is Retired || (fit.converged
            && !fit.separated && fit.se_difficulty.finite() && (fit.discrimination.at_most(
            policy.retire_below_discrimination,
        ) || policy.retire_above_outfit.below(outfit))),
{
}

/// A more precise fit to no fewer responses never leaves an item in a lesser state, unless
/// it was calibrated already.
pub proof fn law_better_fits_do_not_demote(
    policy: PromotionPolicy,
    current: CalibrationState,
    fit: FitResult,
    better: FitResult,
    outfit: Real,
)
    requires
        !(current is Calibrated),
        fit.usable(),
        better.usable(),
        better.discrimination == fit.discrimination,
        better.observations >= fit.observations,
        better.se_difficulty.at_most(fit.se_difficulty),
    ensures
        policy.next(current, fit, outfit) is Calibrated ==> policy.next(
            current,
            better,
            outfit,
        ) is Calibrated,
        policy.next(current, fit, outfit) is Online ==> policy.next(current, better, outfit) is Online
            || policy.next(current, better, outfit) is Calibrated,
        policy.next(current, fit, outfit) is Retired <==> policy.next(
            current,
            better,
            outfit,
        ) is Retired,
{
}

/// The usual policy: thirty responses and a standard error of one half to go online, two
/// hundred and a quarter to count as calibrated, and the item withdrawn at a
/// discrimination of a fifth or a misfit above two.
pub proof fn law_the_usual_policy()
    ensures
        PromotionPolicy::usual().online_min_observations == 30,
        PromotionPolicy::usual().online_max_se.bits == 0x3fe0_0000_0000_0000,
        PromotionPolicy::usual().calibrated_min_observations == 200,
        PromotionPolicy::usual().calibrated_max_se.bits == 0x3fd0_0000_0000_0000,
        PromotionPolicy::usual().retire_below_discrimination.bits == 0x3fc9_9999_9999_999a,
        PromotionPolicy::usual().retire_above_outfit.bits == 0x4000_0000_0000_0000,
{
}

/// What a run concluded about one item.
#[derive(Clone, Debug, PartialEq, Eq)]
pub struct ItemFit {
    /// Which item.
    pub item_id: ItemId,
    /// Parameters before the refit.
    pub before: ItemParameters,
    /// Parameters after.
    pub after: ItemParameters,
    /// Fit diagnostics.
    pub fit: FitResult,
    /// Mean squared standardized residual.
    pub outfit: Real,
    /// Lifecycle state before.
    pub previous_state: CalibrationState,
    /// Lifecycle state after.
    pub next_state: CalibrationState,
    /// Whether the difficulty moved enough to require a new version, so that
    /// historical scores cannot move.
    pub needs_version_bump: bool,
    /// Drift check, when enough responses existed to run one.
    pub drift: Option<DriftReport>,
}

/// Everything one run produced.
#[derive(Clone, Debug, PartialEq, Eq)]
pub struct PipelineReport {
    /// Estimated mode offset.
    pub mode_offset: ModeOffsetFit,
    /// Per-item outcomes.
    pub items: Vec<ItemFit>,
}

/// The positions of items with a property, in order.
pub open spec fn positions(items: Seq<ItemFit>, keep: spec_fn(ItemFit) -> bool) -> Seq<int>
    decreases items.len(),
{
    if items.len() == 0 {
        Seq::empty()
    } else {
        let before = positions(items.drop_last(), keep);
        if keep(items.last()) {
            before.push(items.len() - 1)
        } else {
            before
        }
    }
}

/// Positions, as numbers.
pub open spec fn as_positions(indices: Seq<usize>) -> Seq<int> {
    Seq::new(indices.len(), |i: int| indices[i] as int)
}

impl PipelineReport {
    /// Positions of the items whose parameters moved enough to require a new
    /// version.
    pub fn version_bumps(&self) -> (r: Vec<usize>)
        ensures
            as_positions(r@) == positions(self.items@, |item: ItemFit| item.needs_version_bump),
    {
        let ghost keep = |item: ItemFit| item.needs_version_bump;
        let mut out: Vec<usize> = Vec::new();
        assert(as_positions(out@) =~= positions(self.items@.take(0), keep));
        for i in 0..self.items.len()
            invariant
                keep == (|item: ItemFit| item.needs_version_bump),
                as_positions(out@) == positions(self.items@.take(i as int), keep),
        {
            let ghost before = out@;
            assert(self.items@.take(i + 1).drop_last() =~= self.items@.take(i as int));
            if self.items[i].needs_version_bump {
                out.push(i);
                assert(as_positions(out@) =~= as_positions(before).push(i as int));
            }
        }
        assert(self.items@.take(self.items@.len() as int) =~= self.items@);
        out
    }

    /// Positions of the items that the run retired.
    pub fn retired(&self) -> (r: Vec<usize>)
        ensures
            as_positions(r@) == positions(self.items@, |item: ItemFit| item.next_state is Retired),
    {
        let ghost keep = |item: ItemFit| item.next_state is Retired;
        let mut out: Vec<usize> = Vec::new();
        assert(as_positions(out@) =~= positions(self.items@.take(0), keep));
        for i in 0..self.items.len()
            invariant
                keep == (|item: ItemFit| item.next_state is Retired),
                as_positions(out@) == positions(self.items@.take(i as int), keep),
        {
            let ghost before = out@;
            assert(self.items@.take(i + 1).drop_last() =~= self.items@.take(i as int));
            if self.items[i].next_state == CalibrationState::Retired {
                out.push(i);
                assert(as_positions(out@) =~= as_positions(before).push(i as int));
            }
        }
        assert(self.items@.take(self.items@.len() as int) =~= self.items@);
        out
    }
}

/// The calibration run.
#[derive(Clone, Copy, Debug, PartialEq, Eq, Structural)]
pub struct CalibrationPipeline {
    /// Numerical settings.
    pub settings: CalibrationSettings,
    /// Lifecycle thresholds.
    pub policy: PromotionPolicy,
    /// Refit discrimination as well as difficulty. Off by default: it needs far
    /// more data, and a badly estimated one corrupts every later fit.
    pub fit_discrimination: bool,
}

impl Default for CalibrationPipeline {
    fn default() -> (r: Self)
        ensures
            r.settings == CalibrationSettings::usual(),
            r.policy == PromotionPolicy::usual(),
            !r.fit_discrimination,
    {
        CalibrationPipeline {
            settings: CalibrationSettings::default(),
            policy: PromotionPolicy::default(),
            fit_discrimination: false,
        }
    }
}

/// The parameters an item leaves a run with. A fit that is not usable leaves them
/// exactly as they were.
pub open spec fn parameters_after(before: ItemParameters, fit: FitResult) -> ItemParameters {
    if fit.usable() {
        ItemParameters {
            discrimination: fit.discrimination,
            difficulty: fit.difficulty,
            guessing: before.guessing,
        }
    } else {
        before
    }
}

/// How far a difficulty moved.
pub open spec fn change_of(before: ItemParameters, after: ItemParameters) -> Real {
    after.difficulty.minus(before.difficulty).absolute()
}

/// Items by their responses, each with the parameters of its fit.
pub open spec fn pinned_view(items: Seq<ItemObservations>, fits: Seq<FitResult>) -> Seq<LinkingView> {
    Seq::new(
        items.len(),
        |i: int|
            LinkingView {
                discrimination: fits[i].discrimination,
                difficulty: fits[i].difficulty,
                observations: items[i].observations@,
            },
    )
}

/// How many match responses some items have.
pub open spec fn match_responses_of(items: Seq<ItemObservations>) -> nat
    decreases items.len(),
{
    if items.len() == 0 {
        0
    } else {
        match_responses_of(items.drop_last()) + in_mode(items.last().observations@, Mode::Match).len()
    }
}

proof fn lemma_pinning_keeps_responses(items: Seq<ItemObservations>, fits: Seq<FitResult>)
    requires
        items.len() == fits.len(),
    ensures
        match_responses(pinned_view(items, fits)) == match_responses_of(items),
    decreases items.len(),
{
    if items.len() > 0 {
        lemma_pinning_keeps_responses(items.drop_last(), fits.drop_last());
        assert(pinned_view(items, fits).drop_last() =~= pinned_view(
            items.drop_last(),
            fits.drop_last(),
        ));
    }
}

impl CalibrationPipeline {
    /// The fit of responses from some parameters, with an offset held fixed.
    pub open spec fn fit_of(
        self,
        observations: Seq<Observation>,
        params: ItemParameters,
        mode_offset: Real,
        model: Model,
    ) -> FitResult {
        if self.fit_discrimination {
            refitted_item(
                observations,
                params.discrimination,
                (model.logarithm)(params.discrimination),
                params.difficulty,
                mode_offset,
                self.settings,
                model.pair(),
            )
        } else {
            refitted_difficulty(
                observations,
                params.discrimination,
                params.difficulty,
                mode_offset,
                self.settings,
                model.difficulty(),
            )
        }
    }

    /// The fit that pins a linking item: from its solo responses alone, where
    /// difficulty is not confounded with the offset.
    pub open spec fn pin_of(self, item: ItemObservations, model: Model) -> FitResult {
        self.fit_of(in_mode(item.observations@, Mode::Solo), item.params, Real { bits: 0 }, model)
    }

    /// The offset that linking items give: from their match responses, at the parameters
    /// that their solo responses pinned.
    pub open spec fn offset_of(self, linking: Seq<ItemObservations>, model: Model) -> ModeOffsetFit {
        estimated_offset(
            pinned_view(linking, Seq::new(linking.len(), |i: int| self.pin_of(linking[i], model))),
            Real { bits: 0 },
            self.settings,
            model.offset(),
        )
    }

    /// Whether an outcome is what a run concludes about an item from its fit.
    pub open spec fn concludes(
        self,
        item: ItemObservations,
        fit: FitResult,
        mode_offset: Real,
        model: Model,
        r: ItemFit,
    ) -> bool {
        &&& r.item_id == item.item_id
        &&& r.before == item.params
        &&& r.after == parameters_after(item.params, fit)
        &&& r.fit == fit
        &&& r.outfit == outfit_of(
            item.observations@,
            fit.discrimination,
            fit.difficulty,
            mode_offset,
            model.residuals(),
        )
        &&& r.previous_state == item.state
        &&& r.next_state == self.policy.next(item.state, fit, r.outfit)
        &&& r.needs_version_bump == self.settings.version_bump_threshold.below(
            change_of(r.before, r.after),
        )
        &&& r.drift == drift_of(
            item.observations@,
            fit.discrimination,
            fit.difficulty,
            mode_offset,
            self.settings,
            model.difficulty(),
            model.pooled(),
        )
    }

    /// Whether a report is what a run makes of linking items and of others. The linking
    /// items are fitted from their solo responses alone, the offset is estimated from
    /// their match responses, and the others are fitted from all of theirs with the
    /// offset held fixed.
    pub open spec fn reports(
        self,
        linking: Seq<ItemObservations>,
        others: Seq<ItemObservations>,
        model: Model,
        r: PipelineReport,
    ) -> bool {
        let applied = self.offset_of(linking, model).applied();
        &&& r.mode_offset == self.offset_of(linking, model)
        &&& r.items@.len() == linking.len() + others.len()
        &&& forall|i: int|
            0 <= i < linking.len() ==> self.concludes(
                linking[i],
                self.pin_of(linking[i], model),
                applied,
                model,
                #[trigger] r.items@[i],
            )
        &&& forall|i: int|
            linking.len() <= i < r.items@.len() ==> self.concludes(
                others[i - linking.len()],
                self.fit_of(
                    others[i - linking.len()].observations@,
                    others[i - linking.len()].params,
                    applied,
                    model,
                ),
                applied,
                model,
                #[trigger] r.items@[i],
            )
    }

    /// Fit responses from some parameters.
    fn fit_one<E: Fn(Real) -> Real, L: Fn(Real) -> Real, S: Fn(Real) -> Real>(
        &self,
        observations: &[Observation],
        params: &ItemParameters,
        mode_offset: Real,
        functions: &Functions<E, L, S>,
    ) -> (r: FitResult)
        requires
            self.settings.usable(),
            functions.everywhere(),
        ensures
            forall|model: Model| #[trigger]
                functions.follow(model) ==> r == self.fit_of(
                    observations@,
                    *params,
                    mode_offset,
                    model,
                ),
    {
        if self.fit_discrimination {
            refit_item(
                observations,
                params.discrimination,
                params.difficulty,
                mode_offset,
                &self.settings,
                functions,
            )
        } else {
            refit_difficulty(
                observations,
                params.discrimination,
                params.difficulty,
                mode_offset,
                &self.settings,
                functions,
            )
        }
    }

    /// Conclude about one item.
    pub fn finish<E: Fn(Real) -> Real, L: Fn(Real) -> Real, S: Fn(Real) -> Real>(
        &self,
        item: &ItemObservations,
        fit: FitResult,
        mode_offset: Real,
        functions: &Functions<E, L, S>,
    ) -> (r: ItemFit)
        requires
            self.settings.usable(),
            functions.everywhere(),
        ensures
            forall|model: Model| #[trigger]
                functions.follow(model) ==> self.concludes(*item, fit, mode_offset, model, r),
    {
        let before = item.params;
        let misfit = outfit(
            item.observations.as_slice(),
            fit.discrimination,
            fit.difficulty,
            mode_offset,
            functions,
        );
        let drift = detect_drift(
            item.observations.as_slice(),
            fit.discrimination,
            fit.difficulty,
            mode_offset,
            &self.settings,
            functions,
        );
        let after = if fit.is_usable() {
            ItemParameters {
                discrimination: fit.discrimination,
                difficulty: fit.difficulty,
                guessing: before.guessing,
            }
        } else {
            before
        };
        let change = after.difficulty.subtract(before.difficulty).abs();
        ItemFit {
            item_id: item.item_id.clone(),
            before,
            after,
            fit,
            outfit: misfit,
            previous_state: item.state,
            next_state: self.policy.next_state(item.state, &fit, misfit),
            needs_version_bump: self.settings.version_bump_threshold.lt(change),
            drift,
        }
    }

    /// Run the calibration: pin the linking items, estimate the offset, and fit the
    /// others with it. `linking` are items deliberately served in both conditions; they
    /// are the only source of identification for the offset.
    ///
    /// Nothing is changed by it; what to apply is the caller's decision.
    pub fn run<E: Fn(Real) -> Real, L: Fn(Real) -> Real, S: Fn(Real) -> Real>(
        &self,
        linking: &[ItemObservations],
        others: &[ItemObservations],
        functions: &Functions<E, L, S>,
    ) -> (r: PipelineReport)
        requires
            self.settings.usable(),
            functions.everywhere(),
            match_responses_of(linking@) <= usize::MAX,
        ensures
            forall|model: Model| #[trigger]
                functions.follow(model) ==> self.reports(linking@, others@, model, r),
    {
        let mut pins: Vec<FitResult> = Vec::new();
        let mut linked: Vec<LinkingItem> = Vec::new();
        for i in 0..linking.len()
            invariant
                self.settings.usable(),
                functions.everywhere(),
                pins@.len() == i,
                linked@.len() == i,
                forall|model: Model, j: int|
                    #![trigger functions.follow(model), pins@[j]]
                    functions.follow(model) && 0 <= j < i ==> pins@[j] == self.pin_of(
                        linking@[j],
                        model,
                    ),
                forall|j: int|
                    0 <= j < i ==> (#[trigger] linked@[j])@ == (LinkingView {
                        discrimination: pins@[j].discrimination,
                        difficulty: pins@[j].difficulty,
                        observations: linking@[j].observations@,
                    }),
        {
            let solo = linking[i].by_mode(Mode::Solo);
            let pin = self.fit_one(solo.as_slice(), &linking[i].params, Real::zero(), functions);
            linked.push(LinkingItem::pinned(&linking[i], &pin));
            pins.push(pin);
        }
        proof {
            lemma_pinning_keeps_responses(linking@, pins@);
            assert(linking_view(linked@) =~= pinned_view(linking@, pins@));
        }
        let mode_offset = estimate_mode_offset(
            linked.as_slice(),
            Real::zero(),
            &self.settings,
            functions,
        );
        assert forall|model: Model| #[trigger] functions.follow(model) implies mode_offset
            == self.offset_of(linking@, model) by {
            assert forall|j: int| 0 <= j < linking@.len() implies pins@[j] == self.pin_of(
                linking@[j],
                model,
            ) by {}
            assert(pins@ =~= Seq::new(
                linking@.len(),
                |i: int| self.pin_of(linking@[i], model),
            ));
        }
        let applied = mode_offset.apply();
        let mut items: Vec<ItemFit> = Vec::new();
        for i in 0..linking.len()
            invariant
                self.settings.usable(),
                functions.everywhere(),
                pins@.len() == linking@.len(),
                items@.len() == i,
                forall|model: Model, j: int|
                    #![trigger functions.follow(model), items@[j]]
                    functions.follow(model) && 0 <= j < i ==> self.concludes(
                        linking@[j],
                        pins@[j],
                        applied,
                        model,
                        items@[j],
                    ),
        {
            items.push(self.finish(&linking[i], pins[i], applied, functions));
        }
        for i in 0..others.len()
            invariant
                self.settings.usable(),
                functions.everywhere(),
                items@.len() == linking@.len() + i,
                forall|model: Model, j: int|
                    #![trigger functions.follow(model), items@[j]]
                    functions.follow(model) && 0 <= j < linking@.len() ==> self.concludes(
                        linking@[j],
                        pins@[j],
                        applied,
                        model,
                        items@[j],
                    ),
                forall|model: Model, j: int|
                    #![trigger functions.follow(model), items@[j]]
                    functions.follow(model) && linking@.len() <= j < items@.len()
                        ==> self.concludes(
                        others@[j - linking@.len()],
                        self.fit_of(
                            others@[j - linking@.len()].observations@,
                            others@[j - linking@.len()].params,
                            applied,
                            model,
                        ),
                        applied,
                        model,
                        items@[j],
                    ),
        {
            let fit = self.fit_one(
                others[i].observations.as_slice(),
                &others[i].params,
                applied,
                functions,
            );
            items.push(self.finish(&others[i], fit, applied, functions));
        }
        let r = PipelineReport { mode_offset, items };
        assert forall|model: Model| #[trigger] functions.follow(model) implies self.reports(
            linking@,
            others@,
            model,
            r,
        ) by {
            assert(mode_offset == self.offset_of(linking@, model));
            assert forall|i: int| 0 <= i < linking@.len() implies self.concludes(
                linking@[i],
                self.pin_of(linking@[i], model),
                applied,
                model,
                #[trigger] r.items@[i],
            ) by {
                assert(pins@[i] == self.pin_of(linking@[i], model));
            }
        }
        r
    }
}

/// A run that learned nothing about an item leaves its parameters and state as
/// they were, and asks for no new version.
pub proof fn law_nothing_learned_changes_nothing(
    pipeline: CalibrationPipeline,
    item: ItemObservations,
    fit: FitResult,
    mode_offset: Real,
    model: Model,
    r: ItemFit,
)
    requires
        pipeline.concludes(item, fit, mode_offset, model, r),
        !fit.usable(),
        (Real { bits: 0 }).at_most(pipeline.settings.version_bump_threshold),
    ensures
        r.after == r.before,
        r.next_state == r.previous_state,
        !r.needs_version_bump,
{
    law_a_number_less_itself_is_nothing(r.before.difficulty);
}

/// What a run makes of linking items rests on their solo responses: items with the same
/// parameters and the same solo responses are pinned alike, whatever happened under a
/// deadline.
pub proof fn law_linking_items_are_pinned_by_solo_responses(
    pipeline: CalibrationPipeline,
    item: ItemObservations,
    other: ItemObservations,
    model: Model,
)
    requires
        item.params == other.params,
        in_mode(item.observations@, Mode::Solo) == in_mode(other.observations@, Mode::Solo),
    ensures
        pipeline.pin_of(item, model) == pipeline.pin_of(other, model),
{
}

/// Of the linking items, only match responses move the offset once they are pinned; of
/// the other items, nothing does.
pub proof fn law_other_items_do_not_move_the_offset(
    pipeline: CalibrationPipeline,
    linking: Seq<ItemObservations>,
    others: Seq<ItemObservations>,
    further: Seq<ItemObservations>,
    model: Model,
    r: PipelineReport,
    again: PipelineReport,
)
    requires
        pipeline.reports(linking, others, model, r),
        pipeline.reports(linking, further, model, again),
    ensures
        r.mode_offset == again.mode_offset,
        forall|i: int|
            0 <= i < linking.len() ==> (#[trigger] r.items@[i]).fit == again.items@[i].fit && r.items@[i].after
                == again.items@[i].after,
{
    assert forall|i: int| 0 <= i < linking.len() implies (#[trigger] r.items@[i]).fit
        == again.items@[i].fit && r.items@[i].after == again.items@[i].after by {
        let _ = again.items@[i];
    }
}

/// An offset that did not converge is not applied.
pub proof fn law_an_unidentified_offset_is_not_applied(fit: ModeOffsetFit)
    requires
        !fit.converged,
    ensures
        fit.applied() == (Real { bits: 0 }),
{
}

/// Whether some items hold one of an identity.
pub open spec fn holds_item(items: Seq<ItemObservations>, id: Seq<char>) -> bool {
    exists|i: int| 0 <= i < items.len() && (#[trigger] items[i]).item_id@ == id
}

/// The identities of the items that others hold too, in order.
pub open spec fn shared_ids(linking: Seq<ItemObservations>, others: Seq<ItemObservations>) -> Seq<Seq<char>>
    decreases others.len(),
{
    if others.len() == 0 {
        Seq::empty()
    } else {
        let before = shared_ids(linking, others.drop_last());
        if holds_item(linking, others.last().item_id@) {
            before.push(others.last().item_id@)
        } else {
            before
        }
    }
}

/// Some identities, by value.
pub open spec fn ids_view(ids: Seq<ItemId>) -> Seq<Seq<char>> {
    Seq::new(ids.len(), |i: int| ids[i]@)
}

fn has_item(items: &[ItemObservations], id: &str) -> (r: bool)
    ensures
        r == holds_item(items@, id@),
{
    for i in 0..items.len()
        invariant
            forall|j: int| 0 <= j < i ==> (#[trigger] items@[j]).item_id@ != id@,
    {
        if same(items[i].item_id.as_str(), id) {
            return true;
        }
    }
    false
}

/// Items appearing in both lists, which would be fitted twice.
///
/// A linking item must not also be an ordinary one: a second fit would overwrite
/// the one from solo data alone, and quietly destroy the identification that the
/// linking set exists to provide.
pub fn overlapping_ids(linking: &[ItemObservations], others: &[ItemObservations]) -> (r: Vec<ItemId>)
    ensures
        ids_view(r@) == shared_ids(linking@, others@),
{
    let mut out: Vec<ItemId> = Vec::new();
    assert(ids_view(out@) =~= shared_ids(linking@, others@.take(0)));
    for i in 0..others.len()
        invariant
            ids_view(out@) == shared_ids(linking@, others@.take(i as int)),
    {
        let ghost before = out@;
        assert(others@.take(i + 1).drop_last() =~= others@.take(i as int));
        if has_item(linking, others[i].item_id.as_str()) {
            out.push(others[i].item_id.clone());
            assert(ids_view(out@) =~= ids_view(before).push(others@[i as int].item_id@));
        }
    }
    assert(others@.take(others@.len() as int) =~= others@);
    out
}


/// A fit is usable exactly when it converged, was not separated and tells its difficulty with an
/// error that is finite; a usable fit is taken for the item, and guessing is never touched.
pub proof fn law_a_usable_fit_is_taken(before: ItemParameters, fit: FitResult)
    ensures
        fit.usable() <==> fit.converged && !fit.separated && fit.se_difficulty.finite(),
        parameters_after(before, fit).guessing == before.guessing,
        fit.usable() ==> parameters_after(before, fit).difficulty == fit.difficulty
            && parameters_after(before, fit).discrimination == fit.discrimination,
        !fit.usable() ==> parameters_after(before, fit) == before,
{
}

/// How far an item has moved does not depend on whether it became harder or easier.
pub proof fn law_moves_count_alike_both_ways(a: ItemParameters, b: ItemParameters)
    requires
        a.difficulty.finite(),
        b.difficulty.finite(),
    ensures
        change_of(a, b) == change_of(b, a),
{
    crate::rounding::law_distances_have_no_side(a.difficulty, b.difficulty);
}

/// An item asks for a new version when its difficulty has moved, up or down, by more than the
/// threshold, and not when it has stayed: one that stood at a whole difficulty and now stands at
/// another asks for one, under the usual threshold.
pub proof fn law_a_moved_item_asks_for_a_version(
    pipeline: CalibrationPipeline,
    item: ItemObservations,
    fit: FitResult,
    mode_offset: Real,
    model: Model,
    r: ItemFit,
    from: int,
    to: int,
)
    requires
        pipeline.concludes(item, fit, mode_offset, model, r),
        pipeline.settings.version_bump_threshold.bits == 0x3fb9_9999_9999_999a,
        r.before.difficulty.is_number(from),
        r.after.difficulty.is_number(to),
        -1000 <= from <= 1000,
        -1000 <= to <= 1000,
    ensures
        r.needs_version_bump <==> from != to,
{
    let (x, y) = (r.after.difficulty, r.before.difficulty);
    let threshold = Real { bits: 0x3fb9_9999_9999_999a };
    crate::rounding::law_whole_numbers_are_added_exactly(x, y, to, from);
    let moved = x.minus(y);
    crate::rounding::lemma_size_of_difference(moved, to - from);
    crate::rounding::lemma_a_tenth();
    crate::rounding::law_equal_values_rank_alike(threshold, moved.absolute());
}

/// A difficulty that drifted is judged on two usable fits, one of the earlier half of the responses
/// and one of the later, whose errors together are a number above zero; the distance does not depend
/// on which half came out harder.
pub proof fn law_drift_is_judged_on_two_fits(early: FitResult, late: FitResult, pooled: Real)
    ensures
        judged_drift(early, late, pooled) is Some <==> early.converged && !early.separated
            && early.se_difficulty.finite() && late.converged && !late.separated
            && late.se_difficulty.finite() && !pooled.at_most(Real { bits: 0 }) && pooled.finite(),
        judged_drift(early, late, pooled) matches Some(report) ==> (report.early_difficulty
            == early.difficulty && report.late_difficulty == late.difficulty),
        early.difficulty.finite() && late.difficulty.finite() ==> (judged_drift(early, late, pooled)
            matches Some(report) ==> (judged_drift(late, early, pooled) matches Some(turned)
            && turned.z == report.z)),
{
    if early.difficulty.finite() && late.difficulty.finite() {
        crate::rounding::law_distances_have_no_side(early.difficulty, late.difficulty);
    }
}

/// The early difficulty rests on the first half of the responses alone, and the late one on the rest:
/// two runs that agree on a half agree on what is found of it. With fewer than four responses nothing
/// is judged.
pub proof fn law_each_half_is_judged_by_itself(
    a: Seq<Observation>,
    b: Seq<Observation>,
    discrimination: Real,
    difficulty: Real,
    mode_offset: Real,
    settings: CalibrationSettings,
    measure: spec_fn(Seq<Observation>, Real, Real, Real) -> DifficultyMeasure,
    pooled: spec_fn(Real, Real) -> Real,
)
    requires
        a.len() == b.len(),
    ensures
        a.len() < 4 ==> drift_of(
            a,
            discrimination,
            difficulty,
            mode_offset,
            settings,
            measure,
            pooled,
        ) is None,
        (forall|i: int| 0 <= i < a.len() / 2 ==> #[trigger] a[i] == b[i]) ==> (drift_of(
            a,
            discrimination,
            difficulty,
            mode_offset,
            settings,
            measure,
            pooled,
        ) matches Some(first) ==> (drift_of(
            b,
            discrimination,
            difficulty,
            mode_offset,
            settings,
            measure,
            pooled,
        ) matches Some(second) ==> first.early_difficulty == second.early_difficulty)),
        (forall|i: int| a.len() / 2 <= i < a.len() ==> #[trigger] a[i] == b[i]) ==> (drift_of(
            a,
            discrimination,
            difficulty,
            mode_offset,
            settings,
            measure,
            pooled,
        ) matches Some(first) ==> (drift_of(
            b,
            discrimination,
            difficulty,
            mode_offset,
            settings,
            measure,
            pooled,
        ) matches Some(second) ==> first.late_difficulty == second.late_difficulty)),
{
    let middle = a.len() as int / 2;
    if forall|i: int| 0 <= i < a.len() / 2 ==> #[trigger] a[i] == b[i] {
        assert(a.subrange(0, middle) =~= b.subrange(0, middle));
    }
    if forall|i: int| a.len() / 2 <= i < a.len() ==> #[trigger] a[i] == b[i] {
        assert(a.subrange(middle, a.len() as int) =~= b.subrange(middle, b.len() as int));
    }
}

/// A response whose outcome was all but certain is left out of the fit of an item; every other one
/// counts once. An item of which none counts fits as it should.
pub proof fn law_certain_responses_do_not_count(
    observations: Seq<Observation>,
    one: Observation,
    measure: spec_fn(Observation) -> ResidualMeasure,
)
    ensures
        measure(one).variance.below(Real { bits: 0x3eb0_c6f7_a0b5_ed8d }) ==> residuals_of(
            observations.push(one),
            measure,
        ) == residuals_of(observations, measure),
        !measure(one).variance.below(Real { bits: 0x3eb0_c6f7_a0b5_ed8d }) ==> residuals_of(
            observations.push(one),
            measure,
        ).1 == residuals_of(observations, measure).1 + 1,
{
    assert(observations.push(one).drop_last() =~= observations);
}

/// A fit has converged when the last step was smaller than the tolerance: somewhere on its way the
/// step that was measured, held to the largest allowed, was.
pub proof fn law_a_fit_converges_by_a_small_step(
    iteration: Iteration,
    difficulty: Real,
    measure: spec_fn(Real) -> DifficultyMeasure,
)
    requires
        !iteration.converged,
        iterated_difficulty(iteration, difficulty, measure).0.converged,
    ensures
        exists|at: Real| #[trigger]
            measure(at).step.clamped(
                iteration.settings.max_step.opposite(),
                iteration.settings.max_step,
            ).absolute().below(iteration.settings.tolerance) && !measure(at).information.below(
                iteration.settings.min_information,
            ),
    decreases iteration.settings.max_iterations - iteration.count,
{
    if iteration.runs() {
        let found = measure(difficulty);
        let begun = Iteration {
            count: (iteration.count + 1) as u32,
            unidentified: found.information.below(iteration.settings.min_information),
            ..iteration
        };
        if !begun.unidentified {
            let step = found.step.clamped(
                iteration.settings.max_step.opposite(),
                iteration.settings.max_step,
            );
            let ended = Iteration {
                converged: step.absolute().below(iteration.settings.tolerance),
                ..begun
            };
            if ended.converged {
                assert(measure(difficulty).step.clamped(
                    iteration.settings.max_step.opposite(),
                    iteration.settings.max_step,
                ).absolute().below(iteration.settings.tolerance));
            } else {
                law_a_fit_converges_by_a_small_step(ended, on_the_scale(difficulty.plus(step)), measure);
            }
        }
    }
}

/// A fit of two parameters has converged when the steps of both were smaller than the tolerance at
/// once.
pub proof fn law_a_pair_converges_by_two_small_steps(
    iteration: Iteration,
    logarithm: Real,
    difficulty: Real,
    measure: spec_fn(Real, Real) -> PairMeasure,
)
    requires
        !iteration.converged,
        iterated_pair(iteration, logarithm, difficulty, measure).0.converged,
    ensures
        exists|a: Real, b: Real|
            {
                let settings = iteration.settings;
                let found = #[trigger] measure(a, b);
                &&& found.step_logarithm.clamped(settings.max_step.opposite(), settings.max_step)
                    .absolute().below(settings.tolerance)
                &&& found.step_difficulty.clamped(settings.max_step.opposite(), settings.max_step)
                    .absolute().below(settings.tolerance)
                &&& !found.determinant.below(settings.min_information)
                &&& !found.information.below(settings.min_information)
            },
    decreases iteration.settings.max_iterations - iteration.count,
{
    if iteration.runs() {
        let settings = iteration.settings;
        let found = measure(logarithm, difficulty);
        let begun = Iteration {
            count: (iteration.count + 1) as u32,
            unidentified: found.determinant.below(settings.min_information)
                || found.information.below(settings.min_information),
            ..iteration
        };
        if !begun.unidentified {
            let first = found.step_logarithm.clamped(settings.max_step.opposite(), settings.max_step);
            let second = found.step_difficulty.clamped(
                settings.max_step.opposite(),
                settings.max_step,
            );
            let ended = Iteration {
                converged: first.absolute().below(settings.tolerance) && second.absolute().below(
                    settings.tolerance,
                ),
                ..begun
            };
            if !ended.converged {
                law_a_pair_converges_by_two_small_steps(
                    ended,
                    logarithm.plus(first).clamped(discrimination_band().0, discrimination_band().1),
                    on_the_scale(difficulty.plus(second)),
                    measure,
                );
            }
        }
    }
}

/// How a fit goes unless it is told otherwise: in at most fifty steps, none longer than a half, until
/// a step is shorter than a millionth; what is known with less than a thousand-millionth of
/// information is not identified; and a difficulty that moved by more than a tenth is a new version.
pub proof fn law_the_usual_settings()
    ensures
        CalibrationSettings::usual().max_iterations == 50,
        CalibrationSettings::usual().tolerance.bits == 0x3eb0_c6f7_a0b5_ed8d,
        CalibrationSettings::usual().max_step.bits == 0x3fe0_0000_0000_0000,
        CalibrationSettings::usual().min_information.bits == 0x3e11_2e0b_e826_d695,
        CalibrationSettings::usual().version_bump_threshold.bits == 0x3fb9_9999_9999_999a,
{
}

/// An item that does not discriminate is not fitted: it keeps its difficulty, and the fit says that
/// nothing was found.
pub proof fn law_an_item_that_does_not_discriminate_is_not_fitted(
    observations: Seq<Observation>,
    discrimination: Real,
    initial: Real,
    mode_offset: Real,
    settings: CalibrationSettings,
    measure: spec_fn(Seq<Observation>, Real, Real, Real) -> DifficultyMeasure,
)
    requires
        discrimination.at_most(Real { bits: 0 }),
    ensures
        ({
            let fit = refitted_difficulty(
                observations,
                discrimination,
                initial,
                mode_offset,
                settings,
                measure,
            );
            &&& fit.difficulty == initial
            &&& fit.discrimination == discrimination
            &&& !fit.converged
            &&& fit.iterations == 0
            &&& !fit.se_difficulty.finite()
        }),
{
}

/// A linking item adds its match responses to the count, and itself once if it has any.
pub proof fn law_linking_items_are_counted(items: Seq<LinkingView>, item: LinkingView)
    ensures
        match_responses(items.push(item)) == match_responses(items) + in_mode(
            item.observations,
            Mode::Match,
        ).len(),
        in_mode(item.observations, Mode::Match).len() > 0 ==> contributing_items(items.push(item))
            == contributing_items(items) + 1,
        in_mode(item.observations, Mode::Match).len() == 0 ==> contributing_items(items.push(item))
            == contributing_items(items),
{
    assert(items.push(item).drop_last() =~= items);
}

/// A report lists the linking items first and the others behind them, each with its own parameters,
/// state and fit, and no item is lost.
pub proof fn law_a_report_lists_every_item(
    pipeline: CalibrationPipeline,
    linking: Seq<ItemObservations>,
    others: Seq<ItemObservations>,
    model: Model,
    r: PipelineReport,
    i: int,
)
    requires
        pipeline.reports(linking, others, model, r),
        0 <= i < linking.len() + others.len(),
    ensures
        r.items@.len() == linking.len() + others.len(),
        i < linking.len() ==> r.items@[i].item_id == linking[i].item_id && r.items@[i].before
            == linking[i].params && r.items@[i].previous_state == linking[i].state,
        i >= linking.len() ==> r.items@[i].item_id == others[i - linking.len()].item_id
            && r.items@[i].before == others[i - linking.len()].params && r.items@[i].previous_state
            == others[i - linking.len()].state,
{
    let _ = r.items@[i];
}


/// The items picked from a report are those that meet the condition, all of them, in order.
pub proof fn law_what_is_picked_meets_the_condition(
    items: Seq<ItemFit>,
    keep: spec_fn(ItemFit) -> bool,
    i: int,
)
    requires
        0 <= i < items.len(),
    ensures
        positions(items, keep).contains(i) <==> keep(items[i]),
        forall|j: int, k: int|
            0 <= j < k < positions(items, keep).len() ==> 0 <= #[trigger] positions(items, keep)[j]
                < #[trigger] positions(items, keep)[k] < items.len(),
    decreases items.len(),
{
    let shorter = items.drop_last();
    let before = positions(shorter, keep);
    lemma_positions_are_places(shorter, keep);
    if shorter.len() > 0 {
        law_what_is_picked_meets_the_condition(
            shorter,
            keep,
            if i < shorter.len() {
                i
            } else {
                0
            },
        );
    }
    let all = positions(items, keep);
    if i < shorter.len() {
        assert(items[i] == shorter[i]);
        if before.contains(i) {
            let j = choose|j: int| 0 <= j < before.len() && before[j] == i;
            assert(all[j] == i);
        }
        if all.contains(i) {
            let j = choose|j: int| 0 <= j < all.len() && all[j] == i;
            assert(before[j] == i);
        }
    } else {
        if keep(items.last()) {
            assert(all[all.len() - 1] == i);
        } else if all.contains(i) {
            let j = choose|j: int| 0 <= j < all.len() && all[j] == i;
            assert(before[j] == i);
        }
    }
}

proof fn lemma_positions_are_places(items: Seq<ItemFit>, keep: spec_fn(ItemFit) -> bool)
    ensures
        forall|j: int|
            0 <= j < positions(items, keep).len() ==> 0 <= #[trigger] positions(items, keep)[j] < items.len(),
    decreases items.len(),
{
    if items.len() > 0 {
        let before = positions(items.drop_last(), keep);
        lemma_positions_are_places(items.drop_last(), keep);
        assert forall|j: int| 0 <= j < positions(items, keep).len() implies 0 <= #[trigger] positions(
            items,
            keep,
        )[j] < items.len() by {
            if j < before.len() {
                assert(positions(items, keep)[j] == before[j]);
            }
        }
    }
}

/// An identity is named as shared exactly for the items of the second list that the first one holds.
pub proof fn law_shared_items_are_in_both(
    linking: Seq<ItemObservations>,
    others: Seq<ItemObservations>,
    id: Seq<char>,
)
    ensures
        shared_ids(linking, others).contains(id) <==> holds_item(linking, id) && holds_item(others, id),
    decreases others.len(),
{
    if others.len() > 0 {
        let shorter = others.drop_last();
        let before = shared_ids(linking, shorter);
        let all = shared_ids(linking, others);
        law_shared_items_are_in_both(linking, shorter, id);
        if holds_item(shorter, id) {
            let j = choose|j: int| 0 <= j < shorter.len() && (#[trigger] shorter[j]).item_id@ == id;
            assert(others[j].item_id@ == id);
        }
        if holds_item(others, id) {
            let j = choose|j: int| 0 <= j < others.len() && (#[trigger] others[j]).item_id@ == id;
            if j < shorter.len() {
                assert(shorter[j].item_id@ == id);
            }
        }
        if before.contains(id) {
            let j = choose|j: int| 0 <= j < before.len() && before[j] == id;
            assert(all[j] == id);
        }
        if all.contains(id) {
            let j = choose|j: int| 0 <= j < all.len() && all[j] == id;
            if j < before.len() {
                assert(before[j] == id);
            } else {
                assert(others[others.len() - 1].item_id@ == id);
            }
        }
        if holds_item(linking, others.last().item_id@) {
            assert(all[all.len() - 1] == others.last().item_id@);
        }
    }
}


/// From four responses on drift is judged, wherever both halves give a usable fit and their errors
/// together are a number above zero; an item of which no response counts fits as it should.
pub proof fn law_four_responses_are_enough_to_judge(
    observations: Seq<Observation>,
    discrimination: Real,
    difficulty: Real,
    mode_offset: Real,
    settings: CalibrationSettings,
    measure: spec_fn(Seq<Observation>, Real, Real, Real) -> DifficultyMeasure,
    pooled: spec_fn(Real, Real) -> Real,
    residuals: spec_fn(Observation, Real, Real, Real) -> ResidualMeasure,
)
    ensures
        ({
            let middle = observations.len() as int / 2;
            let early = refitted_difficulty(
                observations.subrange(0, middle),
                discrimination,
                difficulty,
                mode_offset,
                settings,
                measure,
            );
            let late = refitted_difficulty(
                observations.subrange(middle, observations.len() as int),
                discrimination,
                difficulty,
                mode_offset,
                settings,
                measure,
            );
            let error = pooled(early.se_difficulty, late.se_difficulty);
            observations.len() >= 4 && early.usable() && late.usable() && error.finite()
                && !error.at_most(Real { bits: 0 }) ==> drift_of(
                observations,
                discrimination,
                difficulty,
                mode_offset,
                settings,
                measure,
                pooled,
            ) is Some
        }),
        outfit_of(Seq::empty(), discrimination, difficulty, mode_offset, residuals).bits
            == 0x3ff0_0000_0000_0000,
{
}


/// A fit counts the responses it rests on, all of them; it says that they were separated exactly when
/// there were some and all were right or all wrong; and it leaves the discrimination as it was where
/// only the difficulty is fitted.
pub proof fn law_a_fit_counts_its_responses(
    observations: Seq<Observation>,
    discrimination: Real,
    logarithm: Real,
    initial: Real,
    mode_offset: Real,
    settings: CalibrationSettings,
    measure: spec_fn(Seq<Observation>, Real, Real, Real) -> DifficultyMeasure,
    pair: spec_fn(Seq<Observation>, Real, Real, Real) -> PairMeasure,
)
    requires
        observations.len() <= usize::MAX,
        !discrimination.at_most(Real { bits: 0 }),
    ensures
        ({
            let fit = refitted_difficulty(
                observations,
                discrimination,
                initial,
                mode_offset,
                settings,
                measure,
            );
            let both = refitted_item(
                observations,
                discrimination,
                logarithm,
                initial,
                mode_offset,
                settings,
                pair,
            );
            let alike = observations.len() > 0 && forall|i: int|
                0 <= i < observations.len() ==> (#[trigger] observations[i]).correct
                    == observations[0].correct;
            &&& fit.observations == observations.len()
            &&& both.observations == observations.len()
            &&& fit.discrimination == discrimination
            &&& fit.separated <==> alike
            &&& both.separated <==> alike
        }),
{
    lemma_counts_of_like_answers(observations);
}

proof fn lemma_counts_of_like_answers(observations: Seq<Observation>)
    ensures
        correct_count(observations) <= observations.len(),
        observations.len() > 0 ==> (separated(observations) <==> forall|i: int|
            0 <= i < observations.len() ==> (#[trigger] observations[i]).correct
                == observations[0].correct),
        correct_count(observations) == 0 <==> forall|i: int|
            0 <= i < observations.len() ==> !(#[trigger] observations[i]).correct,
        correct_count(observations) == observations.len() <==> forall|i: int|
            0 <= i < observations.len() ==> (#[trigger] observations[i]).correct,
    decreases observations.len(),
{
    if observations.len() > 0 {
        let shorter = observations.drop_last();
        lemma_counts_of_like_answers(shorter);
        let last = observations.len() - 1;
        assert(observations[last] == observations.last());
        if forall|i: int| 0 <= i < shorter.len() ==> !(#[trigger] shorter[i]).correct {
            assert forall|i: int| 0 <= i < shorter.len() implies !(#[trigger] observations[i]).correct by {
                assert(observations[i] == shorter[i]);
            }
        } else {
            let i = choose|i: int| 0 <= i < shorter.len() && (#[trigger] shorter[i]).correct;
            assert(observations[i].correct);
        }
        if forall|i: int| 0 <= i < shorter.len() ==> (#[trigger] shorter[i]).correct {
            assert forall|i: int| 0 <= i < shorter.len() implies (#[trigger] observations[i]).correct by {
                assert(observations[i] == shorter[i]);
            }
        } else {
            let i = choose|i: int| 0 <= i < shorter.len() && !(#[trigger] shorter[i]).correct;
            assert(!observations[i].correct);
        }
        let _ = observations[0].correct;
    }
}

/// A fit that rests on too little information does not say how exact it is; and what is told of an
/// offset counts the match responses and the items that they came from.
pub proof fn law_thin_evidence_has_no_error(
    iteration: Iteration,
    begun: FitResult,
    discrimination: Real,
    moved: Real,
    information: Real,
    se: Real,
    linking: Seq<LinkingView>,
    initial: Real,
    measure: spec_fn(Seq<LinkingView>, Real) -> OffsetMeasure,
)
    requires
        match_responses(linking) <= usize::MAX,
        contributing_items(linking) <= usize::MAX,
    ensures
        !iteration.settings.min_information.below(information) ==> !iteration.fitted(
            begun,
            discrimination,
            moved,
            information,
            se,
        ).se_difficulty.finite(),
        iteration.settings.min_information.below(information) ==> iteration.fitted(
            begun,
            discrimination,
            moved,
            information,
            se,
        ).se_difficulty == se,
        iteration.fitted(begun, discrimination, moved, information, se).difficulty == moved,
        estimated_offset(linking, initial, iteration.settings, measure).observations == match_responses(
            linking,
        ),
        estimated_offset(linking, initial, iteration.settings, measure).linking_items
            == contributing_items(linking),
{
}

}
