//! Calibration of the item bank.
//!
//! The fits generate responses from known parameters and check that the pipeline
//! recovers those values. Anything weaker only shows that the fitter is
//! self-consistent, which is what a broken fitter also is.

use rand::rngs::StdRng;
use rand::{Rng, SeedableRng};

use hcr::calibration::{
    begin_fit, begin_offset, detect_drift, drift_split, estimate_mode_offset, judge_drift,
    move_difficulty, outfit, overlapping_ids, refit_difficulty, refit_item, CalibrationPipeline,
    CalibrationSettings, DriftReport, FitResult, ItemObservations, Iteration, LinkingItem, Mode,
    ModeOffsetFit, Observation, PipelineReport, PromotionPolicy, LEAST_VARIANCE,
    LOGARITHM_OF_A_TWENTIETH, LOGARITHM_OF_THREE,
};
use hcr::likelihood::Functions;
use hcr::meta::{CalibrationState, ItemParameters};
use hcr::number::Real;

fn float(value: f64) -> Real {
    Real { bits: value.to_bits() }
}

fn value(number: Real) -> f64 {
    f64::from_bits(number.bits)
}

/// What the library asks of the machine.
type Machine = Functions<fn(Real) -> Real, fn(Real) -> Real, fn(Real) -> Real>;

fn machine() -> Machine {
    Functions {
        exponential: |x| float(value(x).exp()),
        logarithm: |x| float(value(x).ln()),
        root: |x| float(value(x).sqrt()),
    }
}

/// The chance of success that the two-parameter model gives a response, as the machine
/// computes it.
fn probability(observation: &Observation, a: f64, b: f64, mode_offset: f64) -> f64 {
    let shift = if observation.mode == Mode::Match { mode_offset } else { 0.0 };
    let z = a * (value(observation.theta) - b - shift);
    if z >= 0.0 {
        1.0 / (1.0 + (-z).exp())
    } else {
        z.exp() / (1.0 + z.exp())
    }
}

/// What responses say of a difficulty: the residual and the weight.
fn difficulty_sums(observations: &[Observation], a: f64, b: f64, mode_offset: f64) -> (f64, f64) {
    let (mut residual, mut weight) = (0.0, 0.0);
    for observation in observations {
        let p = probability(observation, a, b, mode_offset);
        residual += p - value(observation.score());
        weight += p * (1.0 - p);
    }
    (residual, weight)
}

/// Refit difficulty with discrimination held fixed.
fn fit_difficulty(
    observations: &[Observation],
    discrimination: f64,
    initial_difficulty: f64,
    mode_offset: f64,
    settings: &CalibrationSettings,
) -> FitResult {
    refit_difficulty(
        observations,
        float(discrimination),
        float(initial_difficulty),
        float(mode_offset),
        settings,
        &machine(),
    )
}

/// What responses say of a discrimination and a difficulty.
fn pair_sums(observations: &[Observation], a: f64, b: f64, mode_offset: f64) -> [f64; 5] {
    let (mut sum_a, mut sum_b, mut sum_c, mut s, mut t) = (0.0, 0.0, 0.0, 0.0, 0.0);
    for observation in observations {
        let shift = value(observation.delta(float(mode_offset)));
        let u = value(observation.theta) - b - shift;
        let p = probability(observation, a, b, mode_offset);
        let w = p * (1.0 - p);
        let residual = value(observation.score()) - p;
        sum_a += w * u * u;
        sum_b += w * u;
        sum_c += w;
        s += residual;
        t += residual * u;
    }
    [sum_a, sum_b, sum_c, s, t]
}

/// Refit discrimination and difficulty jointly.
fn fit_item(
    observations: &[Observation],
    initial_discrimination: f64,
    initial_difficulty: f64,
    mode_offset: f64,
    settings: &CalibrationSettings,
) -> FitResult {
    refit_item(
        observations,
        float(initial_discrimination),
        float(initial_difficulty),
        float(mode_offset),
        settings,
        &machine(),
    )
}

/// What match responses say of an offset.
fn sums_at(items: &[LinkingItem], offset: f64) -> (f64, f64) {
    let (mut numerator, mut information) = (0.0, 0.0);
    for item in items {
        let (a, b) = (value(item.discrimination), value(item.difficulty));
        for observation in item.observations.iter().filter(|o| o.mode == Mode::Match) {
            let p = probability(observation, a, b, offset);
            numerator += a * (p - value(observation.score()));
            information += a * a * p * (1.0 - p);
        }
    }
    (numerator, information)
}

fn pinned_items(linking: &[ItemObservations], pinned: &[FitResult]) -> Vec<LinkingItem> {
    linking.iter().zip(pinned).map(|(item, fit)| LinkingItem::pinned(item, fit)).collect()
}

/// Estimate the mode offset from the match responses of items whose difficulty
/// their solo responses have pinned.
fn offset_of(
    linking: &[ItemObservations],
    pinned: &[FitResult],
    initial_offset: f64,
    settings: &CalibrationSettings,
) -> ModeOffsetFit {
    let items = pinned_items(linking, pinned);
    estimate_mode_offset(&items, float(initial_offset), settings, &machine())
}

/// How erratic responses are under given parameters.
fn outfit_at(observations: &[Observation], a: f64, b: f64, mode_offset: f64) -> f64 {
    value(outfit(observations, float(a), float(b), float(mode_offset), &machine()))
}

/// Compare both halves of a chronological stream.
fn drift_at(
    observations: &[Observation],
    a: f64,
    b: f64,
    mode_offset: f64,
    settings: &CalibrationSettings,
) -> Option<DriftReport> {
    detect_drift(observations, float(a), float(b), float(mode_offset), settings, &machine())
}

/// Calibrate the linking items, the mode offset and every other item.
fn calibrate(
    pipeline: &CalibrationPipeline,
    linking: &[ItemObservations],
    others: &[ItemObservations],
) -> PipelineReport {
    pipeline.run(linking, others, &machine())
}

/// Abilities spread across the usable scale, as a real anchor sample would be.
fn thetas(count: usize) -> Vec<f64> {
    (0..count)
        .map(|index| -2.5 + 5.0 * (index as f64) / ((count - 1) as f64))
        .collect()
}

fn observation(theta: f64, correct: bool, mode: Mode) -> Observation {
    Observation::new(float(theta), correct, mode)
}

/// Sample responses from the true model.
fn responses(
    a: f64,
    b: f64,
    delta: f64,
    mode: Mode,
    abilities: &[f64],
    seed: u64,
) -> Vec<Observation> {
    let mut rng = StdRng::seed_from_u64(seed);
    abilities
        .iter()
        .map(|theta| {
            let shift = if mode == Mode::Match { delta } else { 0.0 };
            let p = 1.0 / (1.0 + (-(a * (theta - b - shift))).exp());
            observation(*theta, rng.gen_bool(p), mode)
        })
        .collect()
}

fn params(a: f64, b: f64) -> ItemParameters {
    ItemParameters { discrimination: float(a), difficulty: float(b), guessing: float(0.0) }
}

fn item(id: &str, a: f64, b: f64, observations: Vec<Observation>) -> ItemObservations {
    ItemObservations {
        item_id: id.to_string(),
        params: params(a, b),
        state: CalibrationState::Online,
        observations,
    }
}

fn settings() -> CalibrationSettings {
    CalibrationSettings::default()
}

#[test]
fn refit_recovers_a_known_difficulty() {
    let (true_a, true_b) = (1.2, 0.8);
    let observations = responses(true_a, true_b, 0.0, Mode::Solo, &thetas(3000), 42);

    // Start deliberately wrong so convergence is doing real work.
    let fit = fit_difficulty(&observations, true_a, 0.0, 0.0, &settings());

    assert!(fit.converged && !fit.separated);
    assert!(
        (value(fit.difficulty) - true_b).abs() < 3.0 * value(fit.se_difficulty),
        "recovered {} vs true {true_b} (se {})",
        value(fit.difficulty),
        value(fit.se_difficulty)
    );
    assert!((value(fit.difficulty) - true_b).abs() < 0.15, "recovered {}", value(fit.difficulty));
}

#[test]
fn refit_converges_from_either_side() {
    let (true_a, true_b) = (1.0, -0.6);
    let observations = responses(true_a, true_b, 0.0, Mode::Solo, &thetas(3000), 7);

    let from_below = fit_difficulty(&observations, true_a, -2.5, 0.0, &settings());
    let from_above = fit_difficulty(&observations, true_a, 2.5, 0.0, &settings());

    assert!(from_below.converged && from_above.converged);
    assert!(
        (value(from_below.difficulty) - value(from_above.difficulty)).abs() < 1e-4,
        "the likelihood is concave, so both starts must reach the same maximum: {} vs {}",
        value(from_below.difficulty),
        value(from_above.difficulty)
    );
}

#[test]
fn joint_refit_recovers_discrimination_and_difficulty() {
    let (true_a, true_b) = (1.5, 0.4);
    let observations = responses(true_a, true_b, 0.0, Mode::Solo, &thetas(6000), 11);

    let fit = fit_item(&observations, 1.0, 0.0, 0.0, &settings());

    assert!(fit.converged);
    assert!(
        (value(fit.difficulty) - true_b).abs() < 0.15,
        "difficulty {} vs {true_b}",
        value(fit.difficulty)
    );
    assert!(
        (value(fit.discrimination) - true_a).abs() < 0.25,
        "discrimination {} vs {true_a}",
        value(fit.discrimination)
    );
}

#[test]
fn joint_refit_reports_failure_when_ability_has_no_spread() {
    // Discrimination is the slope of the response curve; with every respondent
    // at the same ability there is no slope to estimate.
    let flat = vec![0.0; 500];
    let observations = responses(1.0, 0.0, 0.0, Mode::Solo, &flat, 3);

    let fit = fit_item(&observations, 1.0, 0.0, 0.0, &settings());
    assert!(!fit.converged || !fit.se_difficulty.is_finite());
}

#[test]
fn all_correct_or_all_wrong_is_reported_as_separation() {
    let all_correct: Vec<_> =
        thetas(200).iter().map(|t| observation(*t, true, Mode::Solo)).collect();

    let fit = fit_difficulty(&all_correct, 1.0, 0.0, 0.0, &settings());

    assert!(fit.separated, "uniform responses must be flagged");
    assert!(!fit.is_usable(), "a separated fit must not be acted on");
}

#[test]
fn an_empty_sample_leaves_parameters_untouched() {
    let fit = fit_difficulty(&[], 1.0, 0.42, 0.0, &settings());

    assert_eq!(fit.difficulty, float(0.42));
    assert_eq!(fit.observations, 0);
    assert!(!fit.is_usable());
}

#[test]
fn difficulty_and_mode_offset_are_confounded_without_linking_items() {
    // An item observed only under match conditions cannot separate its own
    // difficulty from the mode effect.
    let (true_a, true_b, true_delta) = (1.2, 0.5, 0.7);
    let observations = responses(true_a, true_b, true_delta, Mode::Match, &thetas(3000), 5);

    // Suppose no mode effect: the fit absorbs it into difficulty.
    let without = value(fit_difficulty(&observations, true_a, 0.0, 0.0, &settings()).difficulty);
    // Supply the true offset: the fit recovers the true difficulty.
    let with_offset =
        value(fit_difficulty(&observations, true_a, 0.0, true_delta, &settings()).difficulty);

    assert!((without - (true_b + true_delta)).abs() < 0.15, "got {without}");
    assert!((with_offset - true_b).abs() < 0.15, "got {with_offset}");

    // The two estimates differ by exactly the offset, which is why linking items
    // are required.
    assert!(((without - with_offset) - true_delta).abs() < 0.1, "the shift should equal the offset");
}

#[test]
fn mode_offset_is_recovered_from_linking_items() {
    let true_delta = 0.6;
    let abilities = thetas(2500);

    let solo_a = responses(1.2, 0.0, 0.0, Mode::Solo, &abilities, 1);
    let match_a = responses(1.2, 0.0, true_delta, Mode::Match, &abilities, 2);
    let solo_b = responses(1.0, 0.9, 0.0, Mode::Solo, &abilities, 3);
    let match_b = responses(1.0, 0.9, true_delta, Mode::Match, &abilities, 4);

    let mut all_a = solo_a.clone();
    all_a.extend(match_a);
    let mut all_b = solo_b.clone();
    all_b.extend(match_b);

    // Difficulty pinned by solo data.
    let fit_a = fit_difficulty(&solo_a, 1.2, 0.0, 0.0, &settings());
    let fit_b = fit_difficulty(&solo_b, 1.0, 0.0, 0.0, &settings());

    let linking = [item("a", 1.2, 0.0, all_a), item("b", 1.0, 0.0, all_b)];
    let offset = offset_of(&linking, &[fit_a, fit_b], 0.0, &settings());

    assert!(offset.converged);
    assert_eq!(offset.linking_items, 2);
    assert!(
        (value(offset.offset) - true_delta).abs() < 0.12,
        "recovered {} vs true {true_delta} (se {})",
        value(offset.offset),
        value(offset.se)
    );
}

#[test]
fn mode_offset_reports_nothing_when_there_are_no_match_responses() {
    let solo = responses(1.0, 0.0, 0.0, Mode::Solo, &thetas(100), 1);
    let pinned = fit_difficulty(&solo, 1.0, 0.0, 0.0, &settings());
    let offset =
        offset_of(&[item("solo", 1.0, 0.0, solo)], &[pinned], 0.0, &settings());
    assert_eq!(offset.observations, 0);
    assert!(!offset.converged);
}

#[test]
fn the_pipeline_recovers_both_the_offset_and_item_difficulties() {
    let true_delta = 0.55;
    let abilities = thetas(2500);

    // Two linking items, each served in both conditions.
    let linking: Vec<ItemObservations> = [("link-easy", 1.2, -0.4), ("link-hard", 1.1, 0.7)]
        .iter()
        .enumerate()
        .map(|(index, (id, a, b))| {
            let mut observations =
                responses(*a, *b, 0.0, Mode::Solo, &abilities, 100 + index as u64);
            observations.extend(responses(
                *a,
                *b,
                true_delta,
                Mode::Match,
                &abilities,
                200 + index as u64,
            ));
            item(id, *a, 0.0, observations)
        })
        .collect();

    // Match-only items, whose difficulty is only recoverable once the offset is
    // known.
    let truth = [("match-a", 1.0, 0.2), ("match-b", 1.3, -0.8)];
    let others: Vec<ItemObservations> = truth
        .iter()
        .enumerate()
        .map(|(index, (id, a, b))| ItemObservations {
            state: CalibrationState::Provisional,
            ..item(
                id,
                *a,
                0.0,
                responses(*a, *b, true_delta, Mode::Match, &abilities, 300 + index as u64),
            )
        })
        .collect();

    let report = calibrate(&CalibrationPipeline::default(), &linking, &others);

    assert!(report.mode_offset.converged);
    assert!(
        (value(report.mode_offset.offset) - true_delta).abs() < 0.12,
        "offset = {}",
        value(report.mode_offset.offset)
    );

    for (id, _, true_b) in truth {
        let fit = report
            .items
            .iter()
            .find(|item| item.item_id == id)
            .unwrap_or_else(|| panic!("{id} missing from the report"));
        assert!(
            (value(fit.after.difficulty) - true_b).abs() < 0.2,
            "{id}: recovered {} vs true {true_b}",
            value(fit.after.difficulty)
        );
    }
}

#[test]
fn an_unconverged_offset_is_not_applied() {
    // With no linking items there is nothing to identify the offset from.
    let abilities = thetas(600);
    let others =
        vec![item("solo-only", 1.0, 0.0, responses(1.0, 0.5, 0.0, Mode::Solo, &abilities, 9))];

    let report = calibrate(&CalibrationPipeline::default(), &[], &others);

    assert!(!report.mode_offset.converged);
    assert_eq!(report.mode_offset.offset, float(0.0));
    // The item is still fitted, just without a mode correction.
    assert!((value(report.items[0].after.difficulty) - 0.5).abs() < 0.2);

    let wild = ModeOffsetFit { offset: float(1.5), ..ModeOffsetFit::none() };
    assert_eq!(wild.apply(), float(0.0));
    assert_eq!(ModeOffsetFit { converged: true, ..wild }.apply(), float(1.5));
}

#[test]
fn outfit_is_near_one_for_model_conforming_data() {
    let observations = responses(1.2, 0.3, 0.0, Mode::Solo, &thetas(3000), 21);
    let fit = outfit_at(&observations, 1.2, 0.3, 0.0);
    assert!((0.8..1.25).contains(&fit), "conforming data should sit near 1, got {fit}");
}

#[test]
fn outfit_is_large_when_responses_contradict_the_model() {
    // Invert every response: able people fail, weak people pass.
    let inverted: Vec<_> = responses(1.5, 0.0, 0.0, Mode::Solo, &thetas(1500), 33)
        .iter()
        .map(|o| Observation::new(o.theta, !o.correct, o.mode))
        .collect();

    let fit = outfit_at(&inverted, 1.5, 0.0, 0.0);
    assert!(fit > 2.0, "contradictory data should misfit badly, got {fit}");
}

#[test]
fn drift_is_detected_when_difficulty_shifts_midstream() {
    let abilities = thetas(1200);
    let mut stream = responses(1.2, -0.5, 0.0, Mode::Solo, &abilities, 51);
    stream.extend(responses(1.2, 1.0, 0.0, Mode::Solo, &abilities, 52));

    let report = drift_at(&stream, 1.2, 0.0, 0.0, &settings()).expect("drift report");

    assert!(report.is_drifting(), "z = {}", value(report.z));
    assert!(report.early_difficulty.lt(report.late_difficulty));
}

#[test]
fn a_stable_item_does_not_report_drift() {
    let abilities = thetas(1200);
    let mut stream = responses(1.2, 0.3, 0.0, Mode::Solo, &abilities, 61);
    stream.extend(responses(1.2, 0.3, 0.0, Mode::Solo, &abilities, 62));

    let report = drift_at(&stream, 1.2, 0.3, 0.0, &settings()).expect("drift report");
    assert!(!report.is_drifting(), "z = {}", value(report.z));
}

fn usable(n: usize, se: f64) -> FitResult {
    FitResult {
        difficulty: float(0.0),
        discrimination: float(1.0),
        se_difficulty: float(se),
        observations: n,
        iterations: 3,
        converged: true,
        separated: false,
    }
}

#[test]
fn promotion_follows_sample_size_and_precision() {
    let policy = PromotionPolicy::default();
    let one = float(1.0);

    // Too little data to leave Provisional.
    assert_eq!(
        policy.next_state(CalibrationState::Provisional, &usable(10, 0.3), one),
        CalibrationState::Provisional
    );
    // Enough for Online.
    assert_eq!(
        policy.next_state(CalibrationState::Provisional, &usable(50, 0.4), one),
        CalibrationState::Online
    );
    // Enough for Calibrated.
    assert_eq!(
        policy.next_state(CalibrationState::Online, &usable(500, 0.2), one),
        CalibrationState::Calibrated
    );
    // Plenty of data but imprecise: no promotion.
    assert_eq!(
        policy.next_state(CalibrationState::Online, &usable(500, 0.9), one),
        CalibrationState::Online
    );
}

#[test]
fn misfitting_or_undiscriminating_items_are_retired() {
    let policy = PromotionPolicy::default();
    let fit = |a: f64| FitResult { discrimination: float(a), ..usable(500, 0.1) };

    assert_eq!(
        policy.next_state(CalibrationState::Calibrated, &fit(0.1), float(1.0)),
        CalibrationState::Retired,
        "an item that barely discriminates is not measuring anything"
    );
    assert_eq!(
        policy.next_state(CalibrationState::Calibrated, &fit(1.2), float(5.0)),
        CalibrationState::Retired,
        "severe misfit retires the item"
    );
    // Retirement is one-way.
    assert_eq!(
        policy.next_state(CalibrationState::Retired, &fit(1.2), float(1.0)),
        CalibrationState::Retired
    );
}

#[test]
fn an_unusable_fit_never_moves_the_lifecycle() {
    let policy = PromotionPolicy::default();
    let separated = FitResult {
        difficulty: float(3.0),
        se_difficulty: float(f64::INFINITY),
        iterations: 1,
        separated: true,
        ..usable(5000, 0.1)
    };

    assert_eq!(
        policy.next_state(CalibrationState::Provisional, &separated, float(1.0)),
        CalibrationState::Provisional
    );
}

#[test]
fn a_material_difficulty_change_requires_a_new_version() {
    let abilities = thetas(2000);
    // Truth is far from the stored parameter.
    let items =
        vec![item("moved", 1.2, 0.0, responses(1.2, 1.1, 0.0, Mode::Solo, &abilities, 71))];

    let report = calibrate(&CalibrationPipeline::default(), &[], &items);

    assert!(report.items[0].needs_version_bump);
    assert_eq!(report.version_bumps().len(), 1);
    assert!(report.retired().is_empty());
}

#[test]
fn a_stable_item_does_not_churn_versions() {
    let abilities = thetas(2000);
    let truth = 0.35;
    // Store a parameter already at the truth.
    let items =
        vec![item("stable", 1.2, truth, responses(1.2, truth, 0.0, Mode::Solo, &abilities, 81))];

    let report = calibrate(&CalibrationPipeline::default(), &[], &items);
    assert!(!report.items[0].needs_version_bump, "sampling noise alone must not mint versions");
}

#[test]
fn double_fitting_a_linking_item_is_detectable() {
    let make = |id: &str| item(id, 1.0, 0.0, vec![]);

    let linking = [make("link-a"), make("link-b")];
    let others = [make("link-b"), make("plain")];

    assert_eq!(overlapping_ids(&linking, &others), vec!["link-b".to_string()]);
    assert!(overlapping_ids(&linking, &[make("plain")]).is_empty());
}

#[test]
fn iterations_end_where_the_settings_say() {
    let two = CalibrationSettings { max_iterations: 2, ..settings() };
    let mut iteration = Iteration::new(two);
    assert!(iteration.begin(float(1.0)));
    assert_eq!(iteration.limit(float(9.0)), float(0.5));
    assert_eq!(iteration.limit(float(-9.0)), float(-0.5));
    iteration.end(float(0.5));
    assert!(iteration.is_running());
    assert!(iteration.begin(float(1.0)));
    iteration.end(float(0.25));
    assert!(!iteration.is_running() && !iteration.converged);

    let mut iteration = Iteration::new(two);
    assert!(iteration.begin(float(1.0)));
    iteration.end(float(1e-9));
    assert!(iteration.converged && !iteration.is_running());

    let mut iteration = Iteration::new(two);
    assert!(!iteration.begin(float(0.0)));
    assert!(iteration.unidentified && !iteration.is_running());
}

#[test]
fn nothing_learned_changes_nothing() {
    let stored = item("thin", 1.1, 0.4, vec![]);
    let (fit, possible) =
        begin_fit(&stored.observations, stored.params.discrimination, stored.params.difficulty);
    assert!(!possible);
    let report = calibrate(&CalibrationPipeline::default(), &[], &[stored]);
    let concluded = &report.items[0];
    assert_eq!(concluded.fit, fit);
    assert_eq!(concluded.after, concluded.before);
    assert_eq!(concluded.outfit, float(1.0));
    assert!(concluded.drift.is_none());
    assert_eq!(concluded.next_state, CalibrationState::Online);
    assert!(!concluded.needs_version_bump);
}

#[test]
fn a_pin_rests_on_solo_responses_and_a_refit_on_all() {
    let solo = responses(1.0, 0.5, 0.0, Mode::Solo, &thetas(200), 3);
    let matched = responses(1.0, 0.5, 0.6, Mode::Match, &thetas(200), 4);
    let both: Vec<Observation> = solo.iter().chain(&matched).copied().collect();
    let later = responses(1.0, 0.5, 0.6, Mode::Match, &thetas(200), 5);
    let other: Vec<Observation> = solo.iter().chain(&later).copied().collect();
    let pipeline = CalibrationPipeline::default();
    let report = calibrate(
        &pipeline,
        &[item("linking", 1.0, 0.25, both.clone())],
        &[item("other", 1.0, 0.25, other.clone())],
    );
    let (linking, fitted) = (&report.items[0], &report.items[1]);
    assert!(report.mode_offset.converged);
    let offset = value(report.mode_offset.offset);
    assert_eq!(linking.fit, fit_difficulty(&solo, 1.0, 0.25, 0.0, &pipeline.settings));
    assert_eq!(fitted.fit, fit_difficulty(&other, 1.0, 0.25, offset, &pipeline.settings));
    assert_ne!(fitted.fit, fit_difficulty(&other, 1.0, 0.25, 0.0, &pipeline.settings));
    assert_ne!(fitted.fit, linking.fit);
    assert_eq!(
        report.mode_offset,
        offset_of(&[item("linking", 1.0, 0.25, both)], &[linking.fit], 0.0, &pipeline.settings)
    );

    // An offset that did not converge is not applied.
    let alone = [item("other", 1.0, 0.25, matched.clone())];
    let report = calibrate(&pipeline, &[], &alone);
    assert!(!report.mode_offset.converged);
    let fit = fit_difficulty(&matched, 1.0, 0.25, 0.0, &pipeline.settings);
    assert_eq!(report.items[0].fit, fit);

    // A pipeline that fits discrimination fits it jointly.
    let joint = CalibrationPipeline { fit_discrimination: true, ..CalibrationPipeline::default() };
    let report = calibrate(&joint, &[], &[item("other", 1.0, 0.25, solo.clone())]);
    assert_eq!(report.items[0].fit, fit_item(&solo, 1.0, 0.25, 0.0, &joint.settings));
    assert_eq!(report.items[0].after.discrimination, report.items[0].fit.discrimination);
}

#[test]
fn a_version_is_bumped_by_the_change_in_difficulty() {
    let observations = responses(1.0, 0.5, 0.0, Mode::Solo, &thetas(400), 9);
    let fit = fit_difficulty(&observations, 1.0, 0.25, 0.0, &settings());
    let change = (value(fit.difficulty) - 0.25).abs();
    for (threshold, bumped) in [(change * 0.99, true), (change * 1.01, false)] {
        let pipeline = CalibrationPipeline {
            settings: CalibrationSettings {
                version_bump_threshold: float(threshold),
                ..settings()
            },
            ..CalibrationPipeline::default()
        };
        let report = calibrate(&pipeline, &[], &[item("i", 1.0, 0.25, observations.clone())]);
        assert_eq!(report.items[0].after.difficulty, fit.difficulty);
        assert_eq!(report.items[0].needs_version_bump, bumped);
    }
}

#[test]
fn near_certain_responses_are_left_out_of_the_outfit() {
    let near = [
        observation(0.5, true, Mode::Solo),
        observation(-1.0, false, Mode::Match),
        observation(0.25, false, Mode::Solo),
    ];
    // Fourteen logits above, the variance is below a millionth; thirteen above, not yet.
    let certain = observation(14.0, false, Mode::Solo);
    let less_so = observation(13.0, false, Mode::Solo);
    let mixed = [near[0], certain, near[1], near[2]];
    assert_eq!(outfit_at(&mixed, 1.0, 0.0, 0.5), outfit_at(&near, 1.0, 0.0, 0.5));
    assert_eq!(outfit_at(&[certain], 1.0, 0.0, 0.0), 1.0);
    assert!(outfit_at(&[less_so], 1.0, 0.0, 0.0) > 100_000.0);
    assert_eq!(outfit_at(&[], 1.0, 0.0, 0.0), 1.0);
    assert_eq!(LEAST_VARIANCE, 1e-6_f64.to_bits());

    let mut total = 0.0;
    for response in &near {
        let p = probability(response, 1.0, 0.0, 0.5);
        let z = (value(response.score()) - p) / (p * (1.0 - p)).sqrt();
        total += z * z;
    }
    assert_eq!(outfit_at(&near, 1.0, 0.0, 0.5), total / 3.0);
}

#[test]
fn the_chance_of_success_is_a_logistic_curve() {
    for (theta, mode) in
        [(0.3, Mode::Solo), (0.3, Mode::Match), (-4.0, Mode::Match), (900.0, Mode::Solo)]
    {
        let response = observation(theta, true, mode);
        let found = response.probability(float(1.7), float(-0.2), float(0.45), &machine());
        assert_eq!(found, float(probability(&response, 1.7, -0.2, 0.45)));
    }
    let even = observation(0.5, true, Mode::Match);
    let found = even.probability(float(1.2), float(0.25), float(0.25), &machine());
    assert_eq!(found, float(0.5));
}

#[test]
fn halves_of_a_stream_are_compared_by_their_pooled_error() {
    let abilities = thetas(300);
    let mut stream = responses(1.2, 0.0, 0.0, Mode::Solo, &abilities, 6);
    stream.extend(responses(1.2, 0.4, 0.0, Mode::Solo, &abilities, 7));
    let report = drift_at(&stream, 1.2, 0.1, 0.0, &settings()).unwrap();
    let early = fit_difficulty(&stream[..300], 1.2, 0.1, 0.0, &settings());
    let late = fit_difficulty(&stream[300..], 1.2, 0.1, 0.0, &settings());
    let pooled = (value(early.se_difficulty).powi(2) + value(late.se_difficulty).powi(2)).sqrt();
    let z = (value(late.difficulty) - value(early.difficulty)).abs() / pooled;
    assert_eq!(report.early_difficulty, early.difficulty);
    assert_eq!(report.late_difficulty, late.difficulty);
    assert_eq!(report.z, float(z));
}

#[test]
fn a_fit_takes_the_steps_that_the_machine_takes() {
    let observations = responses(1.3, 0.6, 0.0, Mode::Solo, &thetas(300), 5);
    let limits = settings();
    let (max_step, tolerance) = (value(limits.max_step), value(limits.tolerance));

    let mut b: f64 = -1.0;
    let mut steps = 0;
    loop {
        let (residual, weight) = difficulty_sums(&observations, 1.1, b, 0.2);
        let step = (residual / (1.1 * weight)).clamp(-max_step, max_step);
        b = (b + step).clamp(-3.0, 3.0);
        steps += 1;
        if step.abs() < tolerance {
            break;
        }
    }
    let weight = difficulty_sums(&observations, 1.1, b, 0.2).1;
    let fit = fit_difficulty(&observations, 1.1, -1.0, 0.2, &limits);
    assert!(fit.converged && !fit.separated);
    assert_eq!((fit.difficulty, fit.iterations), (float(b), steps));
    assert_eq!(fit.se_difficulty, float(1.0 / (1.1 * 1.1 * weight).sqrt()));

    let (mut alpha, mut b, mut steps) = (1.0_f64.ln(), 0.0_f64, 0);
    loop {
        let a = alpha.exp();
        let [sum_a, sum_b, sum_c, s, t] = pair_sums(&observations, a, b, 0.0);
        let determinant = sum_a * sum_c - sum_b * sum_b;
        let first = ((sum_c * t - sum_b * s) / (a * determinant)).clamp(-max_step, max_step);
        let second = ((sum_b * t - sum_a * s) / (a * determinant)).clamp(-max_step, max_step);
        alpha = (alpha + first).clamp(0.05_f64.ln(), 3.0_f64.ln());
        b = (b + second).clamp(-3.0, 3.0);
        steps += 1;
        if first.abs() < tolerance && second.abs() < tolerance {
            break;
        }
    }
    let fit = fit_item(&observations, 1.0, 0.0, 0.0, &limits);
    assert!(fit.converged);
    assert_eq!((fit.discrimination, fit.difficulty), (float(alpha.exp()), float(b)));
    assert_eq!(fit.iterations, steps);

    assert_eq!(LOGARITHM_OF_A_TWENTIETH, 0.05_f64.ln().to_bits());
    assert_eq!(LOGARITHM_OF_THREE, 3.0_f64.ln().to_bits());
}

#[test]
fn solo_responses_do_not_move_the_offset() {
    let matched: Vec<Observation> = thetas(40)
        .into_iter()
        .enumerate()
        .map(|(i, theta)| observation(theta, i % 3 != 0, Mode::Match))
        .collect();
    let mut mixed = Vec::new();
    for (i, response) in matched.iter().enumerate() {
        mixed.push(observation(0.1 * i as f64, i % 2 == 0, Mode::Solo));
        mixed.push(*response);
    }
    let stripped = [item("a", 1.0, 0.2, matched), item("b", 1.3, -0.4, Vec::new())];
    let whole = [
        item("a", 1.0, 0.2, mixed),
        item("b", 1.3, -0.4, vec![observation(0.0, true, Mode::Solo)]),
    ];
    let pins = [usable(60, 0.1), usable(60, 0.1)];
    let (all, matched) = (pinned_items(&whole, &pins), pinned_items(&stripped, &pins));
    let begun = begin_offset(&all, float(0.25));
    assert_eq!(begun, begin_offset(&matched, float(0.25)));
    assert_eq!((begun.observations, begun.linking_items), (40, 1));
    let fit = offset_of(&whole, &pins, 0.25, &settings());
    assert!(fit.converged);
    assert_eq!(fit, offset_of(&stripped, &pins, 0.25, &settings()));

    // The machine takes the same steps.
    let limits = settings();
    let (max_step, tolerance) = (value(limits.max_step), value(limits.tolerance));
    let mut offset = 0.25;
    let mut converged = false;
    for _ in 0..limits.max_iterations {
        let (numerator, information) = sums_at(&matched, offset);
        let step = (numerator / information).clamp(-max_step, max_step);
        offset += step;
        if step.abs() < tolerance {
            converged = true;
            break;
        }
    }
    assert!(converged);
    assert_eq!(fit.offset, float(offset));
    assert_eq!(fit.se, float(1.0 / sums_at(&matched, offset).1.sqrt()));

    let none = offset_of(&whole[1..], &pins[1..], 0.25, &settings());
    assert_eq!((none.observations, none.linking_items), (0, 0));
    assert_eq!((none.offset, none.se), (float(0.25), float(f64::INFINITY)));
    assert!(!none.converged);
    assert_eq!(none.apply(), float(0.0));
}

#[test]
fn responses_are_read_by_mode() {
    let both = item(
        "both",
        1.0,
        0.0,
        vec![
            observation(0.0, true, Mode::Solo),
            observation(1.0, false, Mode::Match),
            observation(2.0, true, Mode::Solo),
        ],
    );
    assert_eq!(both.by_mode(Mode::Solo).len(), 2);
    assert_eq!(both.by_mode(Mode::Match)[0].theta, float(1.0));
    assert_eq!(both.observations[1].delta(float(0.3)), float(0.3));
    assert_eq!(both.observations[0].delta(float(0.3)), float(0.0));
    assert_eq!(both.observations[0].score(), float(1.0));
    assert_eq!(both.observations[1].score(), float(0.0));
}

#[test]
fn a_short_stream_has_no_halves() {
    let stream = responses(1.0, 0.0, 0.0, Mode::Solo, &thetas(3), 1);
    assert_eq!(drift_split(&stream), None);
    let stream = responses(1.0, 0.0, 0.0, Mode::Solo, &thetas(5), 1);
    assert_eq!(drift_split(&stream), Some(2));
    let fit = usable(10, 0.1);
    let moved = FitResult { difficulty: float(value(fit.difficulty) - 0.5), ..fit };
    assert!(judge_drift(&fit, &moved, float(0.0)).is_none());
    let report = judge_drift(&fit, &moved, float(0.25)).unwrap();
    assert_eq!(report.z, float(2.0));
    assert!(!report.is_drifting(), "two sigma is the bar, not past it");
    assert!(judge_drift(&fit, &moved, float(0.125)).unwrap().is_drifting());
    assert_eq!(move_difficulty(float(12.0)), float(3.0));
    assert_eq!(move_difficulty(float(-12.0)), float(-3.0));
}
