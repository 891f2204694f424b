//! The dynamic item bank: selection, blueprint, exposure, and what the adaptive
//! engine makes of it.

use std::collections::{HashMap, HashSet};
use std::sync::{Arc, Mutex};

use arona::qbank::{QBankError, QBankStats, QuestionBank};
use arona::selection::selectors::{
    MaxInfoParams, MaxInformationSelector, NearestDiffParams, WarmupSelector,
};
use arona::selection::SelectionHints;
use arona::termination::HybridTerminator;
use arona::{
    Ability, Difficulty, Discrimination, EAPEstimator, GuessingParam, IRTParameters, Question,
    QuestionContent, RenderFormat, Score, Session,
};
use rand::distributions::{Distribution, WeightedIndex};
use rand::rngs::StdRng;
use rand::{Rng, SeedableRng};

use hcr::bank::{HcrDynamicBank, Query, Step, DEFAULT_GENERATION_ATTEMPTS, FIELD_BOOST};
use hcr::blueprint::{total_served, Blueprint};
use hcr::content::{feedback_text, handle_text, OutcomeStore};
use hcr::cutter::ProgrammingMode;
use hcr::domain::{
    AllowedBlockType, Axis, ChallengeDefinition, HairstyleDefinition, JointConfig, Number,
    RobotCollisionConfig, RobotConfig, RobotGeometryConfig, ScoreWeights, ScoringConfig,
    VoxelConfig, VoxelCoord,
};
use hcr::exposure::{ExposureController, DEFAULT_WARMUP};
use hcr::features::ChallengeFeatures;
use hcr::generator::{generate_item, GeneratedItem, ItemFamily};
use hcr::item::{BankItem, CatalogSnapshot};
use hcr::mastery::{
    is_mastered, raw_from_remapped, remap_for_arona, EPSILON, ONE_LESS_EPSILON,
};
use hcr::meta::{CalibrationState, ChallengeMeta, ItemParameters, SkillDimension};
use hcr::number::Real;
use hcr::session::SessionConfig;
use hcr::table::TextMap;

fn float(value: f64) -> Real {
    Real { bits: value.to_bits() }
}

fn num(value: f64) -> Number {
    Number { value: float(value), shortest: format!("{value}") }
}

fn vec3(x: f64, y: f64, z: f64) -> [Number; 3] {
    [num(x), num(y), num(z)]
}

fn joint(id: &str, axis: Axis, min: f64, max: f64, initial: f64, speed: f64) -> JointConfig {
    JointConfig {
        id: id.to_string(),
        name: id.to_string(),
        axis,
        min_angle_deg: num(min),
        max_angle_deg: num(max),
        initial_angle_deg: num(initial),
        speed_deg_per_sec: num(speed),
        servo: None,
    }
}

/// The usual arm over a head with a single hair voxel.
fn definition(id: &str) -> ChallengeDefinition {
    ChallengeDefinition {
        id: id.to_string(),
        name: format!("Challenge {id}"),
        description: "test".to_string(),
        robot_config: RobotConfig {
            joints: vec![
                joint("baseYaw", Axis::Y, -60.0, 60.0, -45.0, 60.0),
                joint("shoulderRoll", Axis::X, -45.0, 45.0, 0.0, 45.0),
                joint("shoulder", Axis::Z, -20.0, 100.0, 45.0, 45.0),
                joint("elbow", Axis::Z, -135.0, 10.0, -80.0, 60.0),
                joint("wrist", Axis::Z, -100.0, 100.0, 35.0, 75.0),
            ],
            geometry: RobotGeometryConfig {
                base_position: vec3(0.0, 0.0, 0.0),
                shoulder_height: num(0.4),
                upper_arm_length: num(1.05),
                forearm_length: num(0.9),
                tool_length: num(0.35),
                tool_radius: num(0.12),
                collision: RobotCollisionConfig {
                    link_radius: num(0.075),
                    joint_radius: num(0.18),
                    tool_shaft_radius: num(0.075),
                    head_clearance: num(0.02),
                },
            },
        },
        voxel_config: VoxelConfig {
            origin: vec3(1.35, 1.5, 0.0),
            size: num(0.16),
            head_center: vec3(1.35, 1.42, 0.0),
            head_scale: vec3(0.68, 0.86, 0.68),
        },
        initial_hair: HairstyleDefinition {
            id: "i".to_string(),
            name: "i".to_string(),
            voxels: vec![VoxelCoord { x: 0, y: -5, z: 7 }],
        },
        target_hair: HairstyleDefinition {
            id: "t".to_string(),
            name: "t".to_string(),
            voxels: vec![],
        },
        allowed_blocks: vec![
            AllowedBlockType::SetJointAngle,
            AllowedBlockType::Wait,
            AllowedBlockType::Repeat,
        ],
        starter_workspace: None,
        scoring: ScoringConfig {
            weights: ScoreWeights {
                completion: float(0.6),
                efficiency: float(0.25),
                time: float(0.15),
            },
            reference_program_cost: float(6.25),
            reference_time_ms: float(5_645.0),
            command_weight: float(0.25),
        },
    }
}

/// Scores awaiting collection, shared with the items that collect them.
#[derive(Clone)]
struct Outcomes {
    store: Arc<Mutex<OutcomeStore>>,
}

impl Outcomes {
    fn new() -> Self {
        Self { store: Arc::new(Mutex::new(OutcomeStore::new())) }
    }

    fn record(&self, submission_id: &str, raw_score: f64) {
        self.store.lock().unwrap().record(submission_id, float(raw_score));
    }

    fn remove(&self, submission_id: &str) {
        self.store.lock().unwrap().remove(submission_id);
    }

    fn misses(&self) -> u64 {
        self.store.lock().unwrap().misses()
    }
}

#[derive(Clone)]
struct Content {
    item_id: String,
    version: u32,
    mastery_threshold: Real,
    outcomes: Outcomes,
}

impl std::fmt::Debug for Content {
    fn fmt(&self, f: &mut std::fmt::Formatter<'_>) -> std::fmt::Result {
        f.write_str(&self.item_id)
    }
}

impl QuestionContent for Content {
    fn render(&self, _format: RenderFormat) -> String {
        handle_text(&self.item_id, self.version)
    }

    fn score(&self, answer: &str) -> Score {
        let score = self.outcomes.store.lock().unwrap().score(answer, self.mastery_threshold);
        Score::new(f64::from_bits(score.bits))
    }

    fn guessing_probability(&self) -> f64 {
        0.0
    }

    fn generate_feedback(&self, _answer: &str, score: Score) -> String {
        feedback_text(&self.item_id, score.is_correct())
    }

    fn clone_box(&self) -> Box<dyn QuestionContent> {
        Box::new(self.clone())
    }
}

type SharedBank = Arc<Mutex<HcrDynamicBank>>;

/// The bank as the adaptive engine sees it.
struct EngineBank {
    bank: SharedBank,
    outcomes: Outcomes,
}

fn irt_of(meta: &ChallengeMeta) -> IRTParameters {
    IRTParameters::new(
        Discrimination(f64::from_bits(meta.irt.discrimination.bits)),
        Difficulty(f64::from_bits(meta.irt.difficulty.bits)),
        GuessingParam(f64::from_bits(meta.irt.guessing.bits)),
    )
}

impl QuestionBank for EngineBank {
    fn select_question(&mut self, hints: &SelectionHints) -> Result<Question, QBankError> {
        let mut bank = self.bank.lock().unwrap();
        let index = pick(&mut bank, hints, &mut |_, _| None)
            .ok_or(QBankError::NoQuestionAvailable)?;
        let item = &bank.items()[index];
        Ok(Question::with_tags(
            Box::new(Content {
                item_id: item.id.clone(),
                version: item.meta.version,
                mastery_threshold: item.meta.mastery_threshold,
                outcomes: self.outcomes.clone(),
            }),
            irt_of(&item.meta),
            item.meta.dimensions.iter().map(|d| d.as_str().to_string()).collect(),
        ))
    }

    fn stats(&self) -> QBankStats {
        let bank = self.bank.lock().unwrap();
        let pool = bank.stats();
        QBankStats {
            total_questions: pool.total,
            used_questions: pool.used,
            available_questions: pool.available,
            difficulty_range: (
                Difficulty(f64::from_bits(pool.difficulty_range.0.bits)),
                Difficulty(f64::from_bits(pool.difficulty_range.1.bits)),
            ),
            discrimination_range: (
                Discrimination(f64::from_bits(pool.discrimination_range.0.bits)),
                Discrimination(f64::from_bits(pool.discrimination_range.1.bits)),
            ),
            avg_difficulty: f64::from_bits(pool.average_difficulty.bits),
            avg_discrimination: f64::from_bits(pool.average_discrimination.bits),
        }
    }

    fn reset(&mut self) {
        self.bank.lock().unwrap().reset();
    }

    fn last_selected_index(&self) -> Option<usize> {
        self.bank.lock().unwrap().last_selected_index()
    }
}

/// What a selection asks the bank for.
fn query_of(hints: &SelectionHints) -> Query {
    let mut used_types: TextMap<u32> = TextMap::new();
    for (name, count) in &hints.used_types {
        used_types.insert(name.clone(), *count);
    }
    Query {
        ability: hints.params.get::<Ability>().map(|theta| float(theta.0)),
        target_difficulty: hints.target_difficulty.map(|difficulty| float(difficulty.0)),
        min_discrimination: hints
            .params
            .get::<MaxInfoParams>()
            .map(|params| float(params.min_discrimination)),
        range: hints.params.get::<NearestDiffParams>().map(|params| float(params.range)),
        field: hints.user_field().map(|hint| hint.field.clone()),
        used_types,
    }
}

/// Measure every item, let the bank decide, and draw where it leaves a choice.
fn pick(
    bank: &mut HcrDynamicBank,
    hints: &SelectionHints,
    generate: &mut dyn FnMut(u64, u32) -> Option<GeneratedItem>,
) -> Option<usize> {
    let query = query_of(hints);
    let theta = Ability(f64::from_bits(query.ability().bits));
    let information: Vec<Real> = bank
        .items()
        .iter()
        .map(|item| float(irt_of(&item.meta).information_2pl(theta)))
        .collect();
    match bank.select_question(&query, &information) {
        Step::Exhausted => None,
        Step::Generate { seed, attempts, .. } => {
            let generated = generate(seed, attempts);
            bank.synthesised(generated)
        }
        Step::Served(index) => Some(index),
        Step::Draw(list) => {
            let shares: Vec<f64> =
                list.iter().map(|(_, weight)| f64::from_bits(weight.bits).max(0.0)).collect();
            let draw = match WeightedIndex::new(&shares) {
                Ok(distribution) => Some(distribution.sample(bank.rng())),
                Err(_) => None,
            };
            Some(bank.drawn(&list, draw))
        }
    }
}

fn build_session(bank: EngineBank, config: SessionConfig, initial_theta: f64) -> Session {
    let value = |value: Real| f64::from_bits(value.bits);
    Session::new(
        Box::new(WarmupSelector::new(
            MaxInformationSelector {
                tolerance: value(config.tolerance),
                min_discrimination: value(config.min_discrimination),
            },
            config.warmup_items,
        )),
        Box::new(bank),
        Box::new(EAPEstimator::new(value(config.prior_mean), value(config.prior_sd))),
        Box::new(HybridTerminator::new(
            config.min_items,
            config.max_items,
            value(config.target_se),
        )),
        Ability(initial_theta),
    )
}

fn meta(b: f64, calibration: CalibrationState, dimensions: Vec<SkillDimension>) -> ChallengeMeta {
    ChallengeMeta {
        version: 1,
        irt: ItemParameters {
            discrimination: float(1.2),
            difficulty: float(b),
            guessing: float(0.0),
        },
        calibration,
        response_count: 250,
        dimensions,
        mastery_threshold: float(0.5),
        generator: None,
        hardware_compatible: true,
        programming_modes: vec![ProgrammingMode::Servo],
    }
}

fn calibrated(b: f64) -> ChallengeMeta {
    meta(b, CalibrationState::Calibrated, vec![SkillDimension::Kinematics])
}

fn item(id: &str, meta: ChallengeMeta) -> BankItem {
    BankItem::new(id.to_string(), meta)
}

/// Items spread across the difficulty range.
fn spread_catalog() -> CatalogSnapshot {
    CatalogSnapshot::new(vec![
        item("very-easy", calibrated(-2.0)),
        item("easy", calibrated(-1.0)),
        item("medium", calibrated(0.0)),
        item("hard", calibrated(1.0)),
        item("very-hard", calibrated(2.0)),
    ])
}

/// Hints as a max-information selector would produce them.
fn hints_at(theta: f64) -> SelectionHints {
    let mut hints = SelectionHints::new(Ability(theta));
    hints.params.set(MaxInfoParams { tolerance: 1.0, min_discrimination: 0.0 });
    hints
}

fn over(bank: HcrDynamicBank, outcomes: &Outcomes) -> EngineBank {
    EngineBank { bank: Arc::new(Mutex::new(bank)), outcomes: outcomes.clone() }
}

/// A pool of one makes selection deterministic, so tests assert on the ranking
/// itself rather than on a sample from it.
fn pool(catalog: CatalogSnapshot) -> HcrDynamicBank {
    HcrDynamicBank::new(catalog, 7)
        .with_randomesque_k(1)
        .with_exposure(ExposureController::unlimited())
}

fn bank_over(catalog: CatalogSnapshot) -> EngineBank {
    over(pool(catalog), &Outcomes::new())
}

fn item_of(question: &Question) -> String {
    question
        .content
        .render(RenderFormat::PlainText)
        .split('@')
        .next()
        .unwrap()
        .to_string()
}

#[test]
fn selects_the_item_most_informative_at_the_current_ability() {
    for (theta, expected) in [(-2.0, "very-easy"), (0.0, "medium"), (2.0, "very-hard")] {
        let mut bank = bank_over(spread_catalog());
        let question = bank.select_question(&hints_at(theta)).unwrap();
        assert_eq!(item_of(&question), expected, "at theta={theta}");
    }
}

#[test]
fn never_serves_the_same_item_twice_in_a_session() {
    let mut bank = bank_over(spread_catalog());
    let mut seen = Vec::new();

    for _ in 0..5 {
        let question = bank.select_question(&hints_at(0.0)).unwrap();
        seen.push(item_of(&question));
    }

    let unique: HashSet<_> = seen.iter().collect();
    assert_eq!(unique.len(), 5, "expected 5 distinct items, got {seen:?}");
}

#[test]
fn an_exhausted_bank_reports_no_question_available() {
    let mut bank = bank_over(spread_catalog());
    for _ in 0..5 {
        bank.select_question(&hints_at(0.0)).unwrap();
    }
    assert!(matches!(
        bank.select_question(&hints_at(0.0)),
        Err(QBankError::NoQuestionAvailable)
    ));
}

#[test]
fn reset_makes_every_item_available_again() {
    let mut bank = bank_over(spread_catalog());
    for _ in 0..5 {
        bank.select_question(&hints_at(0.0)).unwrap();
    }
    bank.reset();

    assert!(bank.select_question(&hints_at(0.0)).is_ok());
    assert!(bank.bank.lock().unwrap().served().len() == 1, "reset should clear serve history");
}

#[test]
fn retired_items_are_never_served() {
    let catalog = CatalogSnapshot::new(vec![
        item("live", calibrated(0.0)),
        item("dead", meta(0.0, CalibrationState::Retired, vec![SkillDimension::Safety])),
    ]);
    let mut bank = bank_over(catalog);

    let question = bank.select_question(&hints_at(0.0)).unwrap();
    assert_eq!(item_of(&question), "live");
    assert!(matches!(
        bank.select_question(&hints_at(0.0)),
        Err(QBankError::NoQuestionAvailable)
    ));
}

#[test]
fn uncalibrated_items_are_measurement_only_by_default() {
    let catalog = || {
        CatalogSnapshot::new(vec![item(
            "fresh",
            meta(0.0, CalibrationState::Provisional, vec![SkillDimension::Precision]),
        )])
    };

    // Adaptive measurement must not rest on an uncalibrated item.
    let mut strict = bank_over(catalog());
    assert!(matches!(
        strict.select_question(&hints_at(0.0)),
        Err(QBankError::NoQuestionAvailable)
    ));

    // A competitive round may use it: ranking is valid whatever the difficulty
    // is, because every player faces the identical item.
    let mut relaxed = over(pool(catalog()).allow_uncalibrated(true), &Outcomes::new());
    assert!(relaxed.select_question(&hints_at(0.0)).is_ok());
}

#[test]
fn min_discrimination_from_the_hints_filters_weak_items() {
    let mut weak = calibrated(0.0);
    weak.irt.discrimination = float(0.2);
    let catalog = CatalogSnapshot::new(vec![item("weak", weak)]);

    let mut bank = bank_over(catalog);
    let mut hints = SelectionHints::new(Ability(0.0));
    hints.params.set(MaxInfoParams { tolerance: 1.0, min_discrimination: 0.5 });

    assert!(matches!(bank.select_question(&hints), Err(QBankError::NoQuestionAvailable)));
}

#[test]
fn an_item_knows_its_dimensions() {
    let item = item("i", calibrated(0.0));
    assert!(item.has_dimension(SkillDimension::Kinematics));
    assert!(!item.has_dimension(SkillDimension::Sequencing));
    assert!(item.matches_field("KINEMATICS") && !item.matches_field("sequencing"));
}

#[test]
fn matching_the_learners_field_boosts_an_item() {
    // Two items equally informative at theta=0; only the tag differs.
    let catalog = CatalogSnapshot::new(vec![
        item(
            "kinematics",
            meta(0.0, CalibrationState::Calibrated, vec![SkillDimension::Kinematics]),
        ),
        item("safety", meta(0.0, CalibrationState::Calibrated, vec![SkillDimension::Safety])),
    ]);

    let mut bank = bank_over(catalog);
    let hints = hints_at(0.0).with_user_field("safety".to_string());
    let question = bank.select_question(&hints).unwrap();

    assert_eq!(item_of(&question), "safety", "the field-matching item should win via the boost");
}

#[test]
fn selection_is_reproducible_for_a_given_seed() {
    let sequence = |seed: u64| {
        let mut bank = over(
            HcrDynamicBank::new(spread_catalog(), seed)
                .with_exposure(ExposureController::unlimited()),
            &Outcomes::new(),
        );
        (0..5)
            .map(|_| item_of(&bank.select_question(&hints_at(0.0)).unwrap()))
            .collect::<Vec<_>>()
    };

    // Same seed, same order: it is what makes a session auditable.
    assert_eq!(sequence(11), sequence(11));
}

#[test]
fn seeds_lead_to_different_orders() {
    let sequence = |seed: u64| {
        let mut bank = over(
            HcrDynamicBank::new(spread_catalog(), seed)
                .with_exposure(ExposureController::unlimited()),
            &Outcomes::new(),
        );
        (0..5)
            .map(|_| item_of(&bank.select_question(&hints_at(0.0)).unwrap()))
            .collect::<Vec<_>>()
    };
    let orders: HashSet<Vec<String>> = (0..20).map(sequence).collect();
    assert!(orders.len() > 1, "twenty seeds gave one order");
}

#[test]
fn the_blueprint_excludes_a_saturated_dimension() {
    let catalog = CatalogSnapshot::new(vec![
        item("precision", meta(0.0, CalibrationState::Calibrated, vec![SkillDimension::Precision])),
        item("safety", meta(0.0, CalibrationState::Calibrated, vec![SkillDimension::Safety])),
    ]);

    let mut bank = over(
        pool(catalog).with_blueprint(Blueprint::uniform().with_tolerance(float(0.0))),
        &Outcomes::new(),
    );

    // Report precision as heavily over-served.
    let mut hints = hints_at(0.0);
    hints.used_types = HashMap::from([("precision".to_string(), 9u32)]);

    let question = bank.select_question(&hints).unwrap();
    assert_eq!(item_of(&question), "safety");
}

#[test]
fn exposure_control_withholds_an_overexposed_item() {
    let catalog =
        CatalogSnapshot::new(vec![item("hot", calibrated(0.0)), item("cold", calibrated(0.0))]);

    let mut exposure = ExposureController::new(float(0.2)).with_warmup(0);
    for _ in 0..10 {
        exposure.record("hot");
    }

    let mut bank = over(
        HcrDynamicBank::new(catalog, 3).with_randomesque_k(1).with_exposure(exposure),
        &Outcomes::new(),
    );

    let question = bank.select_question(&hints_at(0.0)).unwrap();
    assert_eq!(item_of(&question), "cold");
}

#[test]
fn served_items_map_bank_indices_back_to_identity() {
    let mut engine = bank_over(spread_catalog());

    engine.select_question(&hints_at(-2.0)).unwrap();
    engine.select_question(&hints_at(2.0)).unwrap();

    assert_eq!(engine.last_selected_index(), Some(1));
    let bank = engine.bank.lock().unwrap();
    assert_eq!(bank.item_at(0).unwrap().id, "very-easy");
    assert_eq!(bank.item_at(1).unwrap().id, "very-hard");
    assert_eq!(bank.item_at(1).unwrap().version, 1);
    assert!(bank.item_at(2).is_none());
}

#[test]
fn stats_describe_the_servable_pool() {
    let catalog = CatalogSnapshot::new(vec![
        item("easy", calibrated(-1.0)),
        item("hard", calibrated(1.0)),
        item("dead", meta(9.0, CalibrationState::Retired, vec![SkillDimension::Safety])),
    ]);
    let mut bank = bank_over(catalog);

    let before = bank.stats();
    assert_eq!(before.total_questions, 3);
    assert_eq!(before.available_questions, 2, "retired items are not available");
    assert_eq!(before.used_questions, 0);
    // The retired item's absurd difficulty must not widen the reported range.
    assert_eq!(before.difficulty_range.0 .0, -1.0);
    assert_eq!(before.difficulty_range.1 .0, 1.0);
    // The average is taken over the servable items alone.
    assert_eq!(bank.bank.lock().unwrap().stats().servable, 2);
    assert!((before.avg_difficulty - 0.0).abs() < 1e-12);
    assert_eq!((before.avg_difficulty, before.avg_discrimination), (0.0, 1.2));

    bank.select_question(&hints_at(0.0)).unwrap();
    let after = bank.stats();
    assert_eq!(after.used_questions, 1);
    assert_eq!(after.available_questions, 1);
}

#[test]
fn an_empty_catalog_produces_finite_stats() {
    // Infinities would leak into anything that reads the statistics.
    let bank = bank_over(CatalogSnapshot::new(vec![]));
    let stats = bank.stats();

    assert_eq!(stats.total_questions, 0);
    assert!(stats.difficulty_range.0 .0.is_finite());
    assert!(stats.discrimination_range.1 .0.is_finite());
    assert!(stats.avg_difficulty.is_finite());
    assert!(stats.is_exhausted());
}

#[test]
fn a_recorded_outcome_drives_the_verdict_through_the_mastery_threshold() {
    let mut demanding = calibrated(0.0);
    demanding.mastery_threshold = float(0.8);

    let catalog = CatalogSnapshot::new(vec![item("strict", demanding)]);
    let outcomes = Outcomes::new();
    let bank =
        HcrDynamicBank::new(catalog, 5).with_exposure(ExposureController::unlimited());
    let mut session = build_session(over(bank, &outcomes), SessionConfig::default(), 0.0);

    session.next_question().unwrap();

    // 0.79 is a good score but below this item's bar, and above one half.
    outcomes.record("sub-1", 0.79);
    let result = session.submit_response("sub-1").unwrap();
    assert!(!result.correct, "0.79 must fail a 0.80 mastery threshold");
}

#[test]
fn a_score_above_the_threshold_counts_as_mastery_and_raises_theta() {
    let outcomes = Outcomes::new();
    let bank =
        HcrDynamicBank::new(spread_catalog(), 5).with_exposure(ExposureController::unlimited());
    let mut session = build_session(over(bank, &outcomes), SessionConfig::default(), 0.0);

    let mut theta = session.state().ability.0;
    for index in 0..3 {
        session.next_question().unwrap();
        let submission = format!("sub-{index}");
        outcomes.record(&submission, 0.95);
        let result = session.submit_response(&submission).unwrap();
        assert!(result.correct);
        assert!(result.new_ability.0 >= theta, "ability should not fall after a correct response");
        theta = result.new_ability.0;
    }

    assert!(theta > 0.0, "three masteries should push theta above the prior mean");
    assert_eq!(outcomes.misses(), 0, "every submission had a recorded outcome");
}

#[test]
fn a_missing_outcome_scores_zero_and_is_counted() {
    let catalog = CatalogSnapshot::new(vec![item("item", calibrated(0.0))]);
    let outcomes = Outcomes::new();
    let bank =
        HcrDynamicBank::new(catalog, 5).with_exposure(ExposureController::unlimited());
    let mut session = build_session(over(bank, &outcomes), SessionConfig::default(), 0.0);

    session.next_question().unwrap();
    let result = session.submit_response("never-recorded").unwrap();

    assert!(!result.correct);
    assert_eq!(outcomes.misses(), 1, "a missing replay outcome must be observable, not silent");
}

#[test]
fn a_full_adaptive_session_terminates_and_finalizes() {
    let outcomes = Outcomes::new();
    let bank =
        HcrDynamicBank::new(spread_catalog(), 5).with_exposure(ExposureController::unlimited());
    let config = SessionConfig { min_items: 2, max_items: 4, ..SessionConfig::default() };
    let mut session = build_session(over(bank, &outcomes), config, 0.0);

    let mut served = 0;
    while !session.should_terminate() {
        if session.next_question().is_err() {
            break;
        }
        let submission = format!("sub-{served}");
        // Alternate outcomes so the estimate has both directions of evidence.
        outcomes.record(&submission, if served % 2 == 0 { 0.9 } else { 0.2 });
        session.submit_response(&submission).unwrap();
        served += 1;
    }

    assert!(served >= 2, "should serve at least min_items");
    assert!(served <= 4, "should never exceed max_items, served {served}");

    let outcome = session.finalize();
    assert_eq!(outcome.total_items, served);
    assert!(outcome.final_ability.0.is_finite());
    assert!(!outcome.termination_reason.is_empty());
}

// ---------------------------------------------------------------------------
// Mastery
// ---------------------------------------------------------------------------

fn mapped(raw: f64, tau: f64) -> f64 {
    f64::from_bits(remap_for_arona(float(raw), float(tau)).bits)
}

fn mastered(raw: f64, tau: f64) -> bool {
    is_mastered(float(raw), float(tau))
}

#[test]
fn threshold_maps_to_the_decision_boundary() {
    for tau in [0.1, 0.3, 0.5, 0.7, 0.9] {
        assert!((mapped(tau, tau) - 0.5).abs() < 1e-12);
        assert_eq!(mapped(0.0, tau), 0.0);
        assert_eq!(mapped(1.0, tau), 1.0);
    }
}

#[test]
fn mastery_agrees_with_aronas_dichotomization() {
    let tau = 0.8;
    // Just under the bar fails, just over it passes, which a raw score fed straight to
    // the engine would get wrong, since 0.79 > 0.5.
    assert!(!mastered(0.79, tau));
    assert!(mastered(0.81, tau));
    assert!(!mastered(0.5, tau));
}

#[test]
fn remap_is_monotonic() {
    let tau = 0.65;
    let mut previous = -1.0;
    for step in 0..=1000 {
        let raw = f64::from(step) / 1000.0;
        let found = mapped(raw, tau);
        assert!(found >= previous, "not monotonic at raw={raw}");
        previous = found;
    }
}

#[test]
fn round_trips_through_the_inverse() {
    let tau = 0.42;
    for step in 0..=100 {
        let raw = f64::from(step) / 100.0;
        let back = f64::from_bits(raw_from_remapped(float(mapped(raw, tau)), float(tau)).bits);
        assert!((back - raw).abs() < 1e-12, "raw={raw} came back as {back}");
    }
}

#[test]
fn output_is_always_a_legal_arona_score() {
    // The engine's score panics outside of its range, so nothing may escape it,
    // including from absurd inputs.
    for raw in [-5.0, -0.0, 0.5, 1.0, 7.0, f64::INFINITY] {
        let found = mapped(raw, 0.5);
        assert!((0.0..=1.0).contains(&found), "raw={raw} produced {found}");
    }
}

#[test]
fn scores_are_moved_as_the_machine_moves_them() {
    for tau in [-1.0, 0.0, 1e-9, 0.2, 1.0 / 3.0, 0.5, 0.77, 1.0 - 1e-12, 1.0, 3.0] {
        let bar = f64::clamp(tau, f64::EPSILON, 1.0 - f64::EPSILON);
        for step in -3..=53 {
            let raw = f64::from(step) / 50.0;
            let held = raw.clamp(0.0, 1.0);
            let expected = if held <= bar {
                0.5 * (held / bar)
            } else {
                0.5 + 0.5 * (held - bar) / (1.0 - bar)
            };
            assert_eq!(mapped(raw, tau), expected.clamp(0.0, 1.0), "{raw} {tau}");
            let back = if held <= 0.5 {
                (held / 0.5) * bar
            } else {
                bar + ((held - 0.5) / 0.5) * (1.0 - bar)
            };
            let found = raw_from_remapped(float(raw), float(tau));
            assert_eq!(f64::from_bits(found.bits), back.clamp(0.0, 1.0), "{raw} {tau}");
        }
        assert_eq!(mapped(bar, tau), 0.5);
        assert!(!mastered(bar, tau));
    }
    assert_eq!(EPSILON, f64::EPSILON.to_bits());
    assert_eq!(ONE_LESS_EPSILON, (1.0 - f64::EPSILON).to_bits());
}

// ---------------------------------------------------------------------------
// Generation
// ---------------------------------------------------------------------------

fn family() -> ItemFamily {
    ItemFamily {
        id: "cap-trim".to_string(),
        version: "1".to_string(),
        dimensions: vec![SkillDimension::Precision],
        params: vec![],
        hardware_compatible: true,
    }
}

fn synthesise(seed: u64, difficulty: f64) -> GeneratedItem {
    let zero = float(0.0);
    generate_item(
        &family(),
        definition(&format!("cap-trim-{seed:016x}")),
        seed,
        &vec![],
        float(difficulty),
        ChallengeFeatures {
            removal_volume: zero,
            boundary_ratio: zero,
            asymmetry: zero,
            reach_strain: zero,
            head_proximity: zero,
        },
    )
}

fn generating() -> HcrDynamicBank {
    HcrDynamicBank::new(CatalogSnapshot::new(vec![]), 3).allow_uncalibrated(true).with_generator()
}

#[test]
fn an_empty_bank_generates_rather_than_failing() {
    let mut bank = generating().with_generation_attempts(24);
    let index = pick(&mut bank, &hints_at(0.0), &mut |seed, _| Some(synthesise(seed, 0.0)));
    let index = index.expect("the bank should synthesise an item");
    assert!(bank.items()[index].id.starts_with("cap-trim-"));
    assert_eq!(bank.generated_count(), 1);
    assert_eq!(bank.served().len(), 1);
}

#[test]
fn the_same_seed_makes_the_same_draws() {
    let drawn = |seed: u64| {
        let mut bank = HcrDynamicBank::new(CatalogSnapshot::new(vec![]), seed)
            .allow_uncalibrated(true)
            .with_generator();
        let query = query_of(&hints_at(0.5));
        (0..4)
            .map(|_| match bank.select_question(&query, &vec![]) {
                Step::Generate { difficulty, seed, attempts } => {
                    assert_eq!((difficulty, attempts), (float(0.5), DEFAULT_GENERATION_ATTEMPTS));
                    seed
                }
                _ => panic!("an empty bank generates"),
            })
            .collect::<Vec<u64>>()
    };
    let mut generator = StdRng::seed_from_u64(3);
    let words: Vec<u64> = (0..4).map(|_| generator.gen()).collect();
    assert_eq!(drawn(3), words);
    assert_eq!(drawn(3), drawn(3));
    assert_ne!(drawn(3), drawn(4));
}

#[test]
fn generation_keeps_producing_distinct_items() {
    let mut bank = generating();
    for _ in 0..4 {
        pick(&mut bank, &hints_at(0.0), &mut |seed, _| Some(synthesise(seed, 0.0)))
            .expect("an item");
    }

    let ids: HashSet<_> = bank.served().iter().map(|served| served.id.clone()).collect();
    assert_eq!(ids.len(), 4, "every generated item must be distinct");
    assert_eq!(bank.generated_count(), 4);
}

#[test]
fn measurement_sessions_never_serve_a_generated_item() {
    let mut bank = HcrDynamicBank::new(CatalogSnapshot::new(vec![]), 3).with_generator();
    let mut asked = false;
    let index = pick(&mut bank, &hints_at(0.0), &mut |seed, _| {
        asked = true;
        Some(synthesise(seed, 0.0))
    });
    assert!(index.is_none());
    assert!(!asked);
    assert_eq!(bank.generated_count(), 0);
}

#[test]
fn generated_items_can_be_taken_for_persistence() {
    let mut bank = generating();
    pick(&mut bank, &hints_at(0.0), &mut |seed, _| Some(synthesise(seed, 0.0))).unwrap();
    let taken = bank.take_generated();
    assert_eq!(taken.len(), 1);
    assert!(taken[0].dto.meta.generator.is_some());
    assert_eq!(bank.generated_count(), 0);
}

#[test]
fn a_failed_synthesis_leaves_the_bank_exhausted() {
    let mut bank = generating().with_generation_attempts(0);
    let mut attempts = 0;
    let index = pick(&mut bank, &hints_at(0.0), &mut |_, tries| {
        attempts = tries;
        None
    });
    assert!(index.is_none());
    assert_eq!(attempts, 1, "at least one attempt is made");
    assert!(bank.served().is_empty());
}

#[test]
fn a_new_catalog_does_not_rewrite_what_was_served() {
    let mut bank = pool(spread_catalog());
    pick(&mut bank, &hints_at(0.0), &mut |_, _| None).unwrap();
    bank.replace_catalog(CatalogSnapshot::new(vec![item("fresh", calibrated(0.0))]));
    assert_eq!(bank.item_at(0).unwrap().id, "medium");
    let index = pick(&mut bank, &hints_at(0.0), &mut |_, _| None).unwrap();
    assert_eq!(bank.items()[index].id, "fresh");
    assert_eq!(bank.administered(), 2);
}

#[test]
fn a_draw_is_offered_the_best_of_the_pool() {
    let mut bank = HcrDynamicBank::new(spread_catalog(), 1)
        .with_randomesque_k(3)
        .with_exposure(ExposureController::unlimited());
    let query = query_of(&hints_at(0.0));
    let information: Vec<Real> = [0.1, 0.4, 0.3, 0.2, 0.0].into_iter().map(float).collect();
    match bank.select_question(&query, &information) {
        Step::Draw(list) => {
            assert_eq!(
                list,
                vec![(1, float(0.4)), (2, float(0.3)), (3, float(0.2))],
                "the three heaviest, heaviest first"
            );
            assert_eq!(bank.drawn(&list, Some(2)), 3);
            assert_eq!(bank.item_at(0).unwrap().id, "hard");
        }
        other => panic!("{other:?}"),
    }
    let narrow = Query { range: Some(float(0.5)), min_discrimination: None, ..query };
    let aimed = Query { target_difficulty: Some(float(-2.0)), ..narrow };
    assert_eq!(bank.select_question(&aimed, &information), Step::Served(0));
}

#[test]
fn a_band_of_difficulty_weighs_the_nearest_most() {
    let mut bank = HcrDynamicBank::new(spread_catalog(), 1)
        .with_randomesque_k(5)
        .with_exposure(ExposureController::unlimited());
    let difficulties: Vec<f64> =
        bank.items().iter().map(|item| f64::from_bits(item.meta.irt.difficulty.bits)).collect();
    let informed: Vec<Real> = difficulties.iter().map(|b| float(b * 7.0)).collect();
    let asked = Query {
        ability: Some(float(0.3)),
        target_difficulty: None,
        min_discrimination: None,
        range: Some(float(1.75)),
        field: Some("kinematics".to_string()),
        used_types: TextMap::new(),
    };
    let mut expected: Vec<(usize, Real)> = difficulties
        .iter()
        .enumerate()
        .filter(|(_, b)| (**b - 0.3).abs() <= 1.75)
        .map(|(index, b)| (index, float(1.0 / (1.0 + (b - 0.3).abs()))))
        .collect();
    expected.sort_by(|a, b| f64::from_bits(b.1.bits).total_cmp(&f64::from_bits(a.1.bits)));
    assert!(expected.len() > 1 && expected.len() < 5);
    assert_eq!(bank.select_question(&asked, &informed), Step::Draw(expected));
    assert_eq!(asked.target_difficulty(), float(0.3));

    // Asking for information as well, the band is not what counts.
    let both = Query { min_discrimination: Some(float(0.0)), ..asked };
    let measured: Vec<f64> = (0..5).map(|i| 0.37 / (1.0 + i as f64)).collect();
    let boosted = measured.iter().enumerate().map(|(i, m)| (i, float(m * 1.3))).collect();
    let information: Vec<Real> = measured.iter().map(|m| float(*m)).collect();
    assert_eq!(bank.select_question(&both, &information), Step::Draw(boosted));
    assert_eq!(FIELD_BOOST, 1.3_f64.to_bits());

    let bare = Query { ability: None, field: None, ..both };
    assert_eq!((bare.ability(), bare.target_difficulty()), (float(0.0), float(0.0)));
}

#[test]
fn a_degenerate_draw_falls_back_to_a_uniform_one() {
    let mut bank = HcrDynamicBank::new(spread_catalog(), 9)
        .with_exposure(ExposureController::unlimited());
    // What is no number is drawn, as it is ranked, as nothing.
    let zero = float(0.0);
    let information = vec![zero, float(f64::NAN), zero, zero, zero];
    match bank.select_question(&query_of(&hints_at(0.0)), &information) {
        Step::Draw(list) => {
            assert_eq!(list, (0..5).map(|index| (index, zero)).collect::<Vec<_>>());
            assert!(bank.drawn(&list, None) < 5);
        }
        other => panic!("{other:?}"),
    }
}

// ---------------------------------------------------------------------------
// Blueprint
// ---------------------------------------------------------------------------

fn used(pairs: &[(&str, u32)]) -> TextMap<u32> {
    let mut map = TextMap::new();
    for (name, count) in pairs {
        map.insert(name.to_string(), *count);
    }
    map
}

#[test]
fn unconstrained_blueprint_allows_everything() {
    let blueprint = Blueprint::unconstrained();
    assert!(blueprint.allows(&[SkillDimension::Precision], &used(&[("precision", 99)])));
}

#[test]
fn a_saturated_dimension_is_excluded() {
    let blueprint = Blueprint::uniform().with_tolerance(float(0.0));
    // 8 of 10 served are precision, far above the 0.2 uniform target.
    let counts = used(&[("precision", 8), ("safety", 2)]);
    assert!(!blueprint.allows(&[SkillDimension::Precision], &counts));
    assert!(blueprint.allows(&[SkillDimension::Safety], &counts));
}

#[test]
fn multi_dimension_items_qualify_on_any_under_quota_dimension() {
    let blueprint = Blueprint::uniform().with_tolerance(float(0.0));
    let counts = used(&[("precision", 8), ("safety", 2)]);
    // Precision is saturated but kinematics has had nothing, so the item runs.
    assert!(blueprint.allows(&[SkillDimension::Precision, SkillDimension::Kinematics], &counts));
}

#[test]
fn nothing_is_blocked_before_anything_has_been_served() {
    let blueprint = Blueprint::uniform().with_tolerance(float(0.0));
    assert!(blueprint.allows(&[SkillDimension::Precision], &TextMap::new()));
}

#[test]
fn a_blueprint_counts_what_was_served() {
    assert_eq!(total_served(&used(&[("precision", 8), ("safety", 2)])), 10);
    assert!(Blueprint::unconstrained().is_unconstrained());
    assert!(!Blueprint::uniform().is_unconstrained());
    let half = Blueprint::new(vec![(SkillDimension::Safety, float(0.5))])
        .with_tolerance(float(0.0));
    assert!(!half.allows(&[SkillDimension::Safety], &used(&[("safety", 3), ("precision", 2)])));
    assert!(half.clone().allows(&[SkillDimension::Safety], &used(&[("safety", 1), ("x", 2)])));
}

// ---------------------------------------------------------------------------
// Exposure
// ---------------------------------------------------------------------------

#[test]
fn warmup_lets_everything_through() {
    let mut controller = ExposureController::new(float(0.1));
    for _ in 0..5 {
        controller.record("hot");
    }
    assert!(controller.permits("hot"), "cap must not bite during warmup");
}

#[test]
fn an_overexposed_item_is_withheld() {
    let mut controller = ExposureController::new(float(0.2)).with_warmup(10);
    for index in 0..10 {
        controller.record(if index < 5 { "hot" } else { "cold" });
    }
    // 5/10 = 0.5, well over the 0.2 cap.
    assert!(!controller.permits("hot"));
    assert!(controller.permits("unseen"));
}

#[test]
fn unlimited_never_withholds() {
    let mut controller = ExposureController::unlimited();
    for _ in 0..100 {
        controller.record("hot");
    }
    assert!(controller.permits("hot"));
}

#[test]
fn exposure_rates_are_counted() {
    let mut controller = ExposureController::default();
    assert_eq!(DEFAULT_WARMUP, 20);
    controller.record("a");
    controller.record("a");
    controller.record("b");
    assert_eq!(controller.rate("a"), float(2.0 / 3.0));
    assert_eq!(controller.rate("c"), float(0.0));
    let copy = controller.clone();
    controller.record("a");
    assert_eq!(copy.total(), 3);
    assert_eq!(controller.total(), 4);
}

// ---------------------------------------------------------------------------
// Shares and outcomes
// ---------------------------------------------------------------------------

#[test]
fn shares_are_compared_as_the_machine_compares_them() {
    let allowed = |target: f64, tolerance: f64, served: u32, total: u32| {
        let blueprint = Blueprint::new(vec![(SkillDimension::Safety, float(target))])
            .with_tolerance(float(tolerance));
        let counts = used(&[("safety", served), ("other", total - served)]);
        blueprint.allows(&[SkillDimension::Safety], &counts)
    };
    // The sum of the two falls just under four fifths.
    assert!(!allowed(0.7, 0.1, 4, 5));
    assert!(allowed(0.75, 0.05, 4, 5));
    assert!(!allowed(f64::NAN, 0.1, 0, 5));
    assert!(!allowed(0.2, -0.3, 0, 5));
    assert!(allowed(f64::INFINITY, 0.1, 5, 5));
    for target in 0..=20 {
        for tolerance in -2..=4 {
            let (target, tolerance) = (f64::from(target) / 20.0, f64::from(tolerance) / 20.0);
            for total in 1..=12_u32 {
                for served in 0..=total {
                    let share = f64::from(served) / f64::from(total);
                    assert_eq!(
                        allowed(target, tolerance, served, total),
                        share <= target + tolerance,
                        "{served}/{total} against {target} + {tolerance}"
                    );
                }
            }
        }
    }
}

#[test]
fn a_cap_on_exposure_is_held_between_nothing_and_everything() {
    let mut capped = ExposureController::new(float(-3.0)).with_warmup(0);
    let mut open = ExposureController::new(float(7.0)).with_warmup(0);
    let mut undefined = ExposureController::new(float(f64::NAN)).with_warmup(0);
    assert_eq!(capped.rate("a"), float(0.0));
    for controller in [&mut capped, &mut open, &mut undefined] {
        controller.record("a");
        controller.record("b");
        controller.record("a");
    }
    assert!(!capped.permits("a") && capped.permits("c"));
    assert!(open.permits("a"));
    assert!(!undefined.permits("c"));
    assert_eq!(capped.rate("a"), float(2.0 / 3.0));
    // A rate that is the cap itself is within it.
    let mut third = ExposureController::new(float(1.0 / 3.0)).with_warmup(0);
    for item in ["a", "b", "c"] {
        third.record(item);
    }
    assert!(third.permits("a"));
}

#[test]
fn outcomes_are_kept_in_range_and_read_once_recorded() {
    let mut store = OutcomeStore::new();
    store.record("a", float(1.5));
    store.record("b", float(0.25));
    assert_eq!(store.get("a"), Some(float(1.0)));
    assert_eq!(store.take_score("b"), Some(float(0.25)));
    assert_eq!(store.misses(), 0);
    assert_eq!(store.take_score("c"), None);
    assert_eq!(store.misses(), 1);
    assert_eq!(store.remove("a"), Some(float(1.0)));
    assert_eq!(store.get("a"), None);
}

#[test]
fn handles_and_feedback_name_the_item() {
    assert_eq!(handle_text("easy", 3), "easy@3");
    assert_eq!(feedback_text("easy", true), "Mastered easy.");
    assert_eq!(feedback_text("easy", false), "Not yet mastered: easy.");
}
