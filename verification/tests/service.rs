//! The service: catalog, item references, submissions, sessions and rounds.

use std::collections::HashMap;
use std::sync::{Arc, Mutex};

use arona::qbank::{QBankError, QBankStats, QuestionBank};
use arona::selection::selectors::{
    MaxInfoParams, MaxInformationSelector, NearestDiffParams, WarmupSelector,
};
use arona::selection::SelectionHints;
use arona::termination::HybridTerminator;
use arona::{
    Ability, Difficulty, Discrimination, EAPEstimator, GuessingParam, IRTParameters, Question,
    QuestionContent, RenderFormat, Score, Session,
};
use rand::distributions::{Distribution, WeightedIndex};
use serde_json::Value;

use hcr::api::{
    ClientPreview, LessonEventCreate, LessonOutcome, NextItem, ReplayInfo, ResponseOutcome,
    SessionLifecycle, SessionRespond, SessionSnapshot, SessionStart, SubmissionCreate,
    SubmissionResult, SubmissionStatus,
};
use hcr::bank::{HcrDynamicBank, Query, ServedItem, Step};
use hcr::binding::{route, status_for, HttpCall, Route};
use hcr::blueprint::Blueprint;
use hcr::catalog::CatalogStore;
use hcr::clock::{advanced, epoch_ms, now_ms, system_clock, Clock, ManualClock};
use hcr::content::{feedback_text, handle_text, OutcomeStore};
use hcr::cutter::ProgrammingMode;
use hcr::domain::{
    AllowedBlockType, Axis, ChallengeDefinition, HairstyleDefinition, JointConfig, Number,
    ProgramMetrics, RobotCollisionConfig, RobotConfig, RobotGeometryConfig, ScoreResult,
    ScoreWeights, ScoringConfig, Terminal, TerminalReason, VoxelConfig, VoxelCoord,
};
use hcr::error::{ServiceError, ServiceResult, SimError};
use hcr::exposure::ExposureController;
use hcr::generator::GeneratedItem;
use hcr::itemref::{read_claims, ItemRefClaims, ItemRefSigner};
use hcr::meta::{
    CalibrationState, ChallengeDefinitionDto, ChallengeMeta, GeneratorProvenance, ItemParameters,
    SkillDimension,
};
use hcr::number::Real;
use hcr::replay::{
    diverged, program_hash, Admission, ReplayOptions, ReplayOutcome, ReplayPool, ENGINE_VERSION,
};
use hcr::rounding::from_percent;
use hcr::round::{MatchChallengeRef, MatchConfig, MatchPhase, MatchRejection, RankBy};
use hcr::service::{
    read_voxels, response_for, HcrService, Replayed, ServiceConfig, SubmissionPlan,
};
use hcr::session::{
    after_selection, answered, concluded, map_session_error, Choice, EngineError, EngineResult,
    EngineVerdict, SessionConfig,
};
use hcr::table::TextMap;
use hcr::usage::{is_servo, must_reopen, FailureNotice, FileId, UsageEvent};
use hcr::wire::HcrErrorCode;

const T0: u64 = 1_700_000_000_000;

fn float(value: f64) -> Real {
    Real { bits: value.to_bits() }
}

fn num(value: f64) -> Number {
    Number { value: float(value), shortest: format!("{value}") }
}

fn vec3(x: f64, y: f64, z: f64) -> [Number; 3] {
    [num(x), num(y), num(z)]
}

fn joint(id: &str, axis: Axis, min: f64, max: f64, initial: f64, speed: f64) -> JointConfig {
    JointConfig {
        id: id.to_string(),
        name: id.to_string(),
        axis,
        min_angle_deg: num(min),
        max_angle_deg: num(max),
        initial_angle_deg: num(initial),
        speed_deg_per_sec: num(speed),
        servo: None,
    }
}

/// The usual arm over a head with a single hair voxel.
fn definition(id: &str) -> ChallengeDefinition {
    ChallengeDefinition {
        id: id.to_string(),
        name: format!("Challenge {id}"),
        description: "test".to_string(),
        robot_config: RobotConfig {
            joints: vec![
                joint("baseYaw", Axis::Y, -60.0, 60.0, -45.0, 60.0),
                joint("shoulderRoll", Axis::X, -45.0, 45.0, 0.0, 45.0),
                joint("shoulder", Axis::Z, -20.0, 100.0, 45.0, 45.0),
                joint("elbow", Axis::Z, -135.0, 10.0, -80.0, 60.0),
                joint("wrist", Axis::Z, -100.0, 100.0, 35.0, 75.0),
            ],
            geometry: RobotGeometryConfig {
                base_position: vec3(0.0, 0.0, 0.0),
                shoulder_height: num(0.4),
                upper_arm_length: num(1.05),
                forearm_length: num(0.9),
                tool_length: num(0.35),
                tool_radius: num(0.12),
                collision: RobotCollisionConfig {
                    link_radius: num(0.075),
                    joint_radius: num(0.18),
                    tool_shaft_radius: num(0.075),
                    head_clearance: num(0.02),
                },
            },
        },
        voxel_config: VoxelConfig {
            origin: vec3(1.35, 1.5, 0.0),
            size: num(0.16),
            head_center: vec3(1.35, 1.42, 0.0),
            head_scale: vec3(0.68, 0.86, 0.68),
        },
        initial_hair: HairstyleDefinition {
            id: "i".to_string(),
            name: "i".to_string(),
            voxels: vec![VoxelCoord { x: 0, y: -5, z: 7 }],
        },
        target_hair: HairstyleDefinition {
            id: "t".to_string(),
            name: "t".to_string(),
            voxels: vec![],
        },
        allowed_blocks: vec![
            AllowedBlockType::SetJointAngle,
            AllowedBlockType::Wait,
            AllowedBlockType::Repeat,
        ],
        starter_workspace: None,
        scoring: ScoringConfig {
            weights: ScoreWeights {
                completion: float(0.6),
                efficiency: float(0.25),
                time: float(0.15),
            },
            reference_program_cost: float(6.25),
            reference_time_ms: float(5_645.0),
            command_weight: float(0.25),
        },
    }
}

/// Scores awaiting collection, shared with the items that collect them.
#[derive(Clone)]
struct Outcomes {
    store: Arc<Mutex<OutcomeStore>>,
}

impl Outcomes {
    fn new() -> Self {
        Self { store: Arc::new(Mutex::new(OutcomeStore::new())) }
    }

    fn record(&self, submission_id: &str, raw_score: f64) {
        self.store.lock().unwrap().record(submission_id, float(raw_score));
    }

    fn remove(&self, submission_id: &str) {
        self.store.lock().unwrap().remove(submission_id);
    }

    fn misses(&self) -> u64 {
        self.store.lock().unwrap().misses()
    }
}

#[derive(Clone)]
struct Content {
    item_id: String,
    version: u32,
    mastery_threshold: Real,
    outcomes: Outcomes,
}

impl std::fmt::Debug for Content {
    fn fmt(&self, f: &mut std::fmt::Formatter<'_>) -> std::fmt::Result {
        f.write_str(&self.item_id)
    }
}

impl QuestionContent for Content {
    fn render(&self, _format: RenderFormat) -> String {
        handle_text(&self.item_id, self.version)
    }

    fn score(&self, answer: &str) -> Score {
        let score = self.outcomes.store.lock().unwrap().score(answer, self.mastery_threshold);
        Score::new(f64::from_bits(score.bits))
    }

    fn guessing_probability(&self) -> f64 {
        0.0
    }

    fn generate_feedback(&self, _answer: &str, score: Score) -> String {
        feedback_text(&self.item_id, score.is_correct())
    }

    fn clone_box(&self) -> Box<dyn QuestionContent> {
        Box::new(self.clone())
    }
}

type SharedBank = Arc<Mutex<HcrDynamicBank>>;

/// The bank as the adaptive engine sees it.
struct EngineBank {
    bank: SharedBank,
    outcomes: Outcomes,
}

fn irt_of(meta: &ChallengeMeta) -> IRTParameters {
    IRTParameters::new(
        Discrimination(f64::from_bits(meta.irt.discrimination.bits)),
        Difficulty(f64::from_bits(meta.irt.difficulty.bits)),
        GuessingParam(f64::from_bits(meta.irt.guessing.bits)),
    )
}

impl QuestionBank for EngineBank {
    fn select_question(&mut self, hints: &SelectionHints) -> Result<Question, QBankError> {
        let mut bank = self.bank.lock().unwrap();
        let index = pick(&mut bank, hints, &mut |_, _| None)
            .ok_or(QBankError::NoQuestionAvailable)?;
        let item = &bank.items()[index];
        Ok(Question::with_tags(
            Box::new(Content {
                item_id: item.id.clone(),
                version: item.meta.version,
                mastery_threshold: item.meta.mastery_threshold,
                outcomes: self.outcomes.clone(),
            }),
            irt_of(&item.meta),
            item.meta.dimensions.iter().map(|d| d.as_str().to_string()).collect(),
        ))
    }

    fn stats(&self) -> QBankStats {
        let bank = self.bank.lock().unwrap();
        let pool = bank.stats();
        QBankStats {
            total_questions: pool.total,
            used_questions: pool.used,
            available_questions: pool.available,
            difficulty_range: (
                Difficulty(f64::from_bits(pool.difficulty_range.0.bits)),
                Difficulty(f64::from_bits(pool.difficulty_range.1.bits)),
            ),
            discrimination_range: (
                Discrimination(f64::from_bits(pool.discrimination_range.0.bits)),
                Discrimination(f64::from_bits(pool.discrimination_range.1.bits)),
            ),
            avg_difficulty: f64::from_bits(pool.average_difficulty.bits),
            avg_discrimination: f64::from_bits(pool.average_discrimination.bits),
        }
    }

    fn reset(&mut self) {
        self.bank.lock().unwrap().reset();
    }

    fn last_selected_index(&self) -> Option<usize> {
        self.bank.lock().unwrap().last_selected_index()
    }
}

/// What a selection asks the bank for.
fn query_of(hints: &SelectionHints) -> Query {
    let mut used_types: TextMap<u32> = TextMap::new();
    for (name, count) in &hints.used_types {
        used_types.insert(name.clone(), *count);
    }
    Query {
        ability: hints.params.get::<Ability>().map(|theta| float(theta.0)),
        target_difficulty: hints.target_difficulty.map(|difficulty| float(difficulty.0)),
        min_discrimination: hints
            .params
            .get::<MaxInfoParams>()
            .map(|params| float(params.min_discrimination)),
        range: hints.params.get::<NearestDiffParams>().map(|params| float(params.range)),
        field: hints.user_field().map(|hint| hint.field.clone()),
        used_types,
    }
}

/// Measure every item, let the bank decide, and draw where it leaves a choice.
fn pick(
    bank: &mut HcrDynamicBank,
    hints: &SelectionHints,
    generate: &mut dyn FnMut(u64, u32) -> Option<GeneratedItem>,
) -> Option<usize> {
    let query = query_of(hints);
    let theta = Ability(f64::from_bits(query.ability().bits));
    let information: Vec<Real> = bank
        .items()
        .iter()
        .map(|item| float(irt_of(&item.meta).information_2pl(theta)))
        .collect();
    match bank.select_question(&query, &information) {
        Step::Exhausted => None,
        Step::Generate { seed, attempts, .. } => {
            let generated = generate(seed, attempts);
            bank.synthesised(generated)
        }
        Step::Served(index) => Some(index),
        Step::Draw(list) => {
            let shares: Vec<f64> =
                list.iter().map(|(_, weight)| f64::from_bits(weight.bits).max(0.0)).collect();
            let draw = match WeightedIndex::new(&shares) {
                Ok(distribution) => Some(distribution.sample(bank.rng())),
                Err(_) => None,
            };
            Some(bank.drawn(&list, draw))
        }
    }
}

fn build_session(bank: EngineBank, config: SessionConfig, initial_theta: f64) -> Session {
    let value = |value: Real| f64::from_bits(value.bits);
    Session::new(
        Box::new(WarmupSelector::new(
            MaxInformationSelector {
                tolerance: value(config.tolerance),
                min_discrimination: value(config.min_discrimination),
            },
            config.warmup_items,
        )),
        Box::new(bank),
        Box::new(EAPEstimator::new(value(config.prior_mean), value(config.prior_sd))),
        Box::new(HybridTerminator::new(
            config.min_items,
            config.max_items,
            value(config.target_se),
        )),
        Ability(initial_theta),
    )
}

fn challenge(id: &str, version: u32, difficulty: f64) -> ChallengeDefinitionDto {
    ChallengeDefinitionDto {
        challenge: definition(id),
        meta: ChallengeMeta {
            version,
            irt: ItemParameters {
                discrimination: float(1.2),
                difficulty: float(difficulty),
                guessing: float(0.0),
            },
            calibration: CalibrationState::Calibrated,
            response_count: 250,
            dimensions: vec![SkillDimension::Kinematics],
            mastery_threshold: float(0.5),
            generator: None,
            hardware_compatible: true,
            programming_modes: vec![ProgrammingMode::Servo],
        },
    }
}

/// One item for either mode and one for servo programs alone.
fn two_modes() -> Vec<ChallengeDefinitionDto> {
    let mut both = challenge("neat-short-cap", 1, 0.0);
    both.meta.programming_modes = vec![ProgrammingMode::Servo, ProgrammingMode::CutterGrid];
    vec![both, challenge("servo-only", 1, 0.0)]
}

fn submission(id: &str, challenge_id: &str, version: u32) -> SubmissionCreate {
    SubmissionCreate {
        submission_id: id.to_string(),
        challenge_id: challenge_id.to_string(),
        challenge_version: version,
        cutter_grid: false,
        session_id: None,
        match_id: None,
        client_preview: None,
    }
}

fn cutter_submission(id: &str) -> SubmissionCreate {
    SubmissionCreate { cutter_grid: true, ..submission(id, "neat-short-cap", 1) }
}

fn score(final_score: f64) -> ScoreResult {
    ScoreResult {
        completion_score: float(final_score),
        efficiency_score: float(80.0),
        time_score: float(90.0),
        final_score: float(final_score),
        program_cost: float(1.25),
    }
}

fn run(final_score: f64, terminal: Terminal) -> ReplayOutcome {
    ReplayOutcome {
        score: score(final_score),
        metrics: ProgramMetrics {
            source_block_count: 1,
            executed_command_count: 1,
            estimated_duration_ms: float(165.0),
        },
        result_voxels_hash: "ab".repeat(32),
        terminal,
        simulated_ms: float(165.0),
    }
}

fn replayed(final_score: f64) -> ServiceResult<Replayed> {
    Ok(Replayed { outcome: run(final_score, Terminal::completed()), trajectory_diverged: false })
}

fn collided() -> ServiceResult<Replayed> {
    Ok(Replayed {
        outcome: run(
            12.5,
            Terminal {
                reason: TerminalReason::HeadCollision,
                joint_id: Some("baseYaw".to_string()),
                safe_angle_deg: Some(float(-30.0)),
                source_block_id: Some("a".to_string()),
                part_label: Some("forearm".to_string()),
            },
        ),
        trajectory_diverged: false,
    })
}

fn encode(claims: &ItemRefClaims) -> Vec<u8> {
    let mut map: serde_json::Map<String, Value> = serde_json::Map::new();
    map.insert("sessionId".to_string(), Value::from(claims.session_id.clone()));
    map.insert("bankIndex".to_string(), Value::from(claims.bank_index));
    map.insert("itemId".to_string(), Value::from(claims.item_id.clone()));
    map.insert("challengeVersion".to_string(), Value::from(claims.challenge_version));
    map.insert("issuedAt".to_string(), Value::from(claims.issued_at));
    serde_json::to_vec(&Value::Object(map)).unwrap()
}

fn decode(payload: &[u8]) -> Option<ItemRefClaims> {
    let value: Value = serde_json::from_slice(payload).ok()?;
    Some(ItemRefClaims {
        session_id: value.get("sessionId")?.as_str()?.to_string(),
        bank_index: value.get("bankIndex")?.as_u64()? as usize,
        item_id: value.get("itemId")?.as_str()?.to_string(),
        challenge_version: value.get("challengeVersion")?.as_u64()? as u32,
        issued_at: value.get("issuedAt")?.as_u64()?,
    })
}

/// A service together with the banks and outcomes of its live sessions.
struct Server {
    service: HcrService,
    banks: HashMap<String, (SharedBank, Outcomes)>,
}

impl Server {
    fn new(challenges: Vec<ChallengeDefinitionDto>, config: ServiceConfig) -> Self {
        let mut catalog = CatalogStore::new();
        for dto in challenges {
            catalog.insert(dto).expect("insert");
        }
        let signer = ItemRefSigner::new(b"test-signing-key-0123456789".to_vec());
        Server { service: HcrService::new(catalog, signer, config), banks: HashMap::new() }
    }

    fn score(&mut self, request: SubmissionCreate, final_score: f64) -> SubmissionResult {
        self.service
            .create_submission_for(request, None, replayed(final_score), float(5.0), T0)
            .expect("scores")
            .0
    }

    fn start(&mut self, request: &SessionStart, now: u64) -> ServiceResult<SessionSnapshot> {
        let plan = self.service.start_session(request)?;
        let bank = Arc::new(Mutex::new(plan.bank));
        let outcomes = Outcomes::new();
        let session = build_session(
            EngineBank { bank: bank.clone(), outcomes: outcomes.clone() },
            plan.config,
            f64::from_bits(plan.initial_theta.bits),
        );
        self.banks.insert(plan.session_id.clone(), (bank, outcomes));
        self.service.open_session(plan.session_id, plan.mode, session, now)
    }

    fn open(&mut self) -> String {
        self.start(&SessionStart::default(), T0).unwrap().session_id
    }

    fn next_item(&mut self, session_id: &str, now: u64) -> ServiceResult<NextItem> {
        match self.service.next_item(session_id, now)? {
            Choice::Pending(item) => Ok(item),
            Choice::Selected { index, expected_remaining } => {
                let bank = &self.banks[session_id].0;
                let served: Option<ServedItem> = bank.lock().unwrap().item_at(index).cloned();
                let claims = self.service.claims_for(session_id, index, served.as_ref(), now)?;
                let payload = encode(&claims);
                self.service.issue_item(session_id, claims, &payload, expected_remaining)
            }
        }
    }

    fn respond(
        &mut self,
        session_id: &str,
        item_ref: &str,
        submission_id: &str,
        now: u64,
    ) -> ServiceResult<(ResponseOutcome, UsageEvent)> {
        let request = SessionRespond {
            session_id: session_id.to_string(),
            item_ref: item_ref.to_string(),
            submission_id: submission_id.to_string(),
        };
        let payload = self.service.signer().verify(&request.item_ref);
        let decoded = payload.ok().and_then(|payload| decode(&payload));
        let final_score = self.service.scored_response(&request, &decoded)?.score.final_score;
        let normalized = f64::from_bits(from_percent(final_score).bits);
        let outcomes = self.banks[session_id].1.clone();
        outcomes.record(submission_id, normalized);
        let answer = self.service.respond(&request, &decoded, now);
        outcomes.remove(submission_id);
        answer
    }
}

fn config() -> ServiceConfig {
    ServiceConfig {
        session: SessionConfig { min_items: 2, max_items: 3, ..SessionConfig::default() },
        blueprint: Blueprint::unconstrained(),
        exposure: ExposureController::unlimited(),
        seed: 99,
        session_idle_timeout_ms: 30 * 60 * 1000,
        ..ServiceConfig::default()
    }
}

fn default_server() -> Server {
    Server::new(
        vec![challenge("easy", 1, -1.0), challenge("medium", 1, 0.0), challenge("hard", 1, 1.0)],
        config(),
    )
}

fn timed_server(idle_timeout_ms: u64) -> Server {
    Server::new(
        vec![challenge("easy", 1, -1.0), challenge("hard", 1, 1.0)],
        ServiceConfig { seed: 7, session_idle_timeout_ms: idle_timeout_ms, ..config() },
    )
}

fn round_config(mode: ProgrammingMode, challenge_id: &str) -> MatchConfig {
    MatchConfig {
        duration_ms: 60_000,
        rank_by: RankBy::Completion,
        max_players: 4,
        min_submit_interval_ms: 0,
        challenge_ref: Some(MatchChallengeRef {
            challenge_id: challenge_id.to_string(),
            version: 1,
        }),
        programming_mode: mode,
    }
}

fn claims(session: &str, index: usize, item: &str, version: u32) -> ItemRefClaims {
    ItemRefClaims {
        session_id: session.to_string(),
        bank_index: index,
        item_id: item.to_string(),
        challenge_version: version,
        issued_at: T0,
    }
}

// ---------------------------------------------------------------------------
// Item references
// ---------------------------------------------------------------------------

#[test]
fn item_references_round_trip() {
    let signer = ItemRefSigner::new(b"key".to_vec());
    let original = claims("s-1", 3, "medium", 2);

    let token = signer.sign(&encode(&original));
    let payload = signer.verify(&token).unwrap();
    assert_eq!(*read_claims(&decode(&payload)).unwrap(), original);
}

#[test]
fn a_tampered_item_reference_is_rejected() {
    let signer = ItemRefSigner::new(b"key".to_vec());
    let token = signer.sign(&encode(&claims("s-1", 0, "easy", 1)));
    let (payload, signature) = token.split_once('.').unwrap();

    // Re-encode different claims but keep the original signature.
    let forged_token = signer.sign(&encode(&claims("s-1", 0, "hard", 1)));
    let (forged_payload, _) = forged_token.split_once('.').unwrap();
    assert_ne!(forged_payload, payload);

    let forged = format!("{forged_payload}.{signature}");
    assert!(matches!(signer.verify(&forged), Err(ServiceError::ItemRefInvalid(_))));
}

#[test]
fn a_reference_signed_with_another_key_is_rejected() {
    let token =
        ItemRefSigner::new(b"real-key".to_vec()).sign(&encode(&claims("s-1", 0, "easy", 1)));

    assert!(matches!(
        ItemRefSigner::new(b"other-key".to_vec()).verify(&token),
        Err(ServiceError::ItemRefInvalid(_))
    ));
}

#[test]
fn a_malformed_reference_is_rejected_rather_than_panicking() {
    let signer = ItemRefSigner::new(b"key".to_vec());
    for bad in ["", "no-dot", "a.b", "...", "!!!.???"] {
        assert!(signer.verify(bad).is_err(), "{bad:?} should be rejected");
    }
    // A genuine signature over something that is no claim is turned down later.
    let payload = signer.verify(&signer.sign(b"not json")).unwrap();
    assert!(matches!(read_claims(&decode(&payload)), Err(ServiceError::ItemRefInvalid(_))));
}

#[test]
fn the_signing_key_is_never_rendered() {
    let rendered = ItemRefSigner::new(b"super-secret".to_vec()).render();
    assert!(!rendered.contains("secret"), "{rendered}");
}

#[test]
fn tokens_are_two_unpadded_url_safe_parts() {
    let signer = ItemRefSigner::new(b"Jefe".to_vec());
    // A published HMAC-SHA-256 vector.
    let mac = signer.mac(b"what do ya want for nothing?");
    let hex: String = mac.iter().map(|byte| format!("{byte:02x}")).collect();
    assert_eq!(hex, "5bdcc146bf60754e6a042426089575c75a003f089d2739839dec58b964ec3843");
    let token = signer.sign(&[0xfb, 0xff, 0xfe]);
    let (payload, signature) = token.split_once('.').unwrap();
    assert_eq!(payload, "-__-");
    assert_eq!(signature.len(), 43);
    assert!(!token.contains('='));
    assert_eq!(signer.verify(&token).unwrap(), vec![0xfb, 0xff, 0xfe]);
}

// ---------------------------------------------------------------------------
// Catalog
// ---------------------------------------------------------------------------

#[test]
fn the_catalog_resolves_the_latest_version_by_default() {
    let mut store = CatalogStore::new();
    store.insert(challenge("item", 1, 0.0)).unwrap();
    store.insert(challenge("item", 3, 0.5)).unwrap();
    store.insert(challenge("item", 2, 0.2)).unwrap();

    assert_eq!(store.get("item", None).unwrap().meta.version, 3);
    assert_eq!(store.get("item", Some(1)).unwrap().meta.version, 1);
    assert_eq!(store.get("item", Some(1)).unwrap().meta.irt.difficulty, float(0.0));
}

#[test]
fn overwriting_a_served_version_is_refused() {
    let mut store = CatalogStore::new();
    store.insert(challenge("item", 1, 0.0)).unwrap();
    assert!(store.insert(challenge("item", 1, 9.0)).is_err());
    assert_eq!(store.get("item", Some(1)).unwrap().meta.irt.difficulty, float(0.0));
}

#[test]
fn missing_challenges_are_reported_precisely() {
    let mut store = CatalogStore::new();
    store.insert(challenge("item", 1, 0.0)).unwrap();

    assert!(matches!(store.get("nope", None), Err(ServiceError::ChallengeNotFound { .. })));
    assert!(matches!(store.get("item", Some(7)), Err(ServiceError::ChallengeNotFound { .. })));
}

#[test]
fn listings_are_ordered_and_deduplicated_to_the_latest_version() {
    let mut store = CatalogStore::new();
    store.insert(challenge("beta", 1, 0.0)).unwrap();
    store.insert(challenge("alpha", 1, 0.0)).unwrap();
    store.insert(challenge("alpha", 2, 0.0)).unwrap();

    let listed: Vec<String> = store.list().into_iter().map(|c| c.id).collect();
    assert_eq!(listed, vec!["alpha".to_string(), "beta".to_string()]);
    assert_eq!(store.len(), 3);
}

fn generated_dto(id: &str, calibration: CalibrationState) -> ChallengeDefinitionDto {
    let mut dto = challenge(id, 1, 0.0);
    dto.meta.calibration = calibration;
    dto.meta.generator = Some(GeneratorProvenance {
        family_id: "cap-trim".to_string(),
        version: "1".to_string(),
        seed: 7,
        params: Vec::new(),
    });
    dto
}

#[test]
fn authored_challenges_lead_the_listing_whatever_the_alphabet_says() {
    let mut catalog = CatalogStore::new();
    catalog.insert(generated_dto("cap-trim-aaa", CalibrationState::Provisional)).unwrap();
    catalog.insert(generated_dto("cap-trim-bbb", CalibrationState::Online)).unwrap();
    catalog.insert(challenge("neat-short-cap", 1, 0.0)).unwrap();

    let ids: Vec<String> = catalog.list().into_iter().map(|s| s.id).collect();
    assert_eq!(ids, ["neat-short-cap", "cap-trim-aaa", "cap-trim-bbb"]);
}

#[test]
fn an_unpinned_round_lands_on_an_authored_challenge() {
    let mut catalog = CatalogStore::new();
    catalog.insert(generated_dto("cap-trim-aaa", CalibrationState::Calibrated)).unwrap();
    catalog.insert(challenge("neat-short-cap", 1, 0.0)).unwrap();

    assert_eq!(
        catalog.pick_for_match(ProgrammingMode::Servo).unwrap(),
        ("neat-short-cap".to_string(), 1)
    );
}

#[test]
fn a_round_may_use_a_provisional_item_but_never_a_retired_one() {
    let mut catalog = CatalogStore::new();
    catalog.insert(generated_dto("cap-trim-aaa", CalibrationState::Provisional)).unwrap();
    assert_eq!(
        catalog.pick_for_match(ProgrammingMode::Servo).unwrap(),
        ("cap-trim-aaa".to_string(), 1)
    );

    let mut retired = CatalogStore::new();
    retired.insert(generated_dto("cap-trim-bbb", CalibrationState::Retired)).unwrap();
    assert!(matches!(
        retired.pick_for_match(ProgrammingMode::Servo),
        Err(ServiceError::BankExhausted)
    ));
}

#[test]
fn snapshots_hold_the_latest_version_of_each_item() {
    let mut store = CatalogStore::new();
    for dto in two_modes() {
        store.insert(dto).unwrap();
    }
    store.insert(challenge("servo-only", 4, 0.0)).unwrap();
    let all = store.snapshot();
    assert_eq!(all.len(), 2);
    assert_eq!(all.get("servo-only").unwrap().meta.version, 4);
    let grid = store.snapshot_for(ProgrammingMode::CutterGrid);
    assert_eq!(grid.len(), 1);
    assert!(grid.get("neat-short-cap").is_some());
    assert!(store
        .insert_challenge(definition("plain"), ChallengeMeta::provisional(1, float(0.0)))
        .is_ok());
}

// ---------------------------------------------------------------------------
// Submissions
// ---------------------------------------------------------------------------

#[test]
fn a_submission_is_scored_authoritatively() {
    let mut server = default_server();
    let result = server.score(submission("sub-1", "easy", 1), 72.0);

    assert_eq!(result.status, SubmissionStatus::Completed);
    assert_eq!(result.terminal.reason, TerminalReason::Completed);
    assert_eq!(result.metrics.executed_command_count, 1);
    assert_eq!(result.score.final_score, float(72.0));
    assert_eq!(result.result_voxels_hash.len(), 64);
    assert!(result.replay.engine_version.starts_with("hcr_sim/"));
    assert_eq!(result.replay.engine_version, ENGINE_VERSION);
    assert_eq!(result.replay.tick_ms, float(5.0));
    assert_eq!(server.service.get_submission("sub-1").unwrap(), &result);
}

#[test]
fn resubmitting_the_same_id_returns_the_first_result() {
    let mut server = default_server();

    let first = server.score(submission("sub-1", "easy", 1), 72.0);
    // A different program under the same id must not be scored again.
    let second = server
        .service
        .create_submission_for(submission("sub-1", "easy", 1), None, collided(), float(5.0), T0)
        .unwrap();

    assert_eq!(second.0, first);
    assert!(second.1.is_none(), "a repeat is no new event");
    assert!(matches!(
        server.service.plan_submission(&submission("sub-1", "easy", 1)),
        Ok(SubmissionPlan::Stored(_))
    ));
}

#[test]
fn a_head_collision_still_produces_a_score() {
    let mut server = default_server();
    let (result, _) = server
        .service
        .create_submission_for(submission("sub-c", "easy", 1), None, collided(), float(5.0), T0)
        .unwrap();

    assert_eq!(result.status, SubmissionStatus::Error);
    assert_eq!(result.terminal.reason, TerminalReason::HeadCollision);
    assert_eq!(result.terminal.source_block_id.as_deref(), Some("a"));
    assert!(result.terminal.safe_angle_deg.is_some());
    assert!(result.error.is_none(), "not a request error");
}

#[test]
fn a_failed_replay_stores_nothing() {
    let mut server = default_server();
    let refused = server.service.create_submission_for(
        submission("sub-big", "easy", 1),
        None,
        Err(ServiceError::ProgramTooLarge { limit: 500 }),
        float(5.0),
        T0,
    );
    assert!(matches!(refused, Err(ServiceError::ProgramTooLarge { limit: 500 })));
    assert_eq!(server.service.retained_submissions(), 0);
    assert!(server.service.get_submission("sub-big").is_err());
}

#[test]
fn submitting_against_an_unknown_version_fails() {
    let mut server = default_server();
    assert!(matches!(
        server.service.plan_submission(&submission("sub-v", "easy", 99)),
        Err(ServiceError::ChallengeNotFound { .. })
    ));
    assert!(matches!(
        server.service.create_submission_for(
            submission("sub-v", "easy", 99),
            None,
            replayed(50.0),
            float(5.0),
            T0
        ),
        Err(ServiceError::ChallengeNotFound { .. })
    ));
    match server.service.plan_submission(&submission("sub-v", "easy", 1)) {
        Ok(SubmissionPlan::Replay(dto)) => assert_eq!(dto.challenge.id, "easy"),
        other => panic!("{other:?}"),
    };
}

#[test]
fn identical_replays_are_served_from_cache() {
    let mut pool = ReplayPool::new(2, ReplayOptions { tick_ms: float(5.0) });
    assert_eq!(pool.cached(), 0);
    let hash = program_hash(b"{\"nodes\":[]}");

    assert!(matches!(pool.begin("easy", 1, &hash), Admission::Admitted));
    pool.finish("easy", 1, &hash, Some(&run(72.0, Terminal::completed())));
    assert_eq!(pool.cached(), 1);

    // The same challenge and program again: no second replay.
    match pool.begin("easy", 1, &hash) {
        Admission::Cached(outcome) => assert_eq!(outcome.score.final_score, float(72.0)),
        other => panic!("{other:?}"),
    }
    assert_eq!(pool.cached(), 1);
    // Another version of the challenge is another run.
    assert!(matches!(pool.begin("easy", 2, &hash), Admission::Admitted));
}

#[test]
fn a_saturated_pool_turns_replays_away() {
    let mut pool = ReplayPool::new(1, ReplayOptions { tick_ms: float(5.0) });
    assert_eq!(pool.available(), 1);
    assert!(matches!(pool.begin("a", 1, "x"), Admission::Admitted));
    assert_eq!((pool.running(), pool.available()), (1, 0));
    assert!(matches!(pool.begin("b", 1, "x"), Admission::Saturated));
    pool.finish("a", 1, "x", None);
    assert_eq!(pool.available(), 1);
    assert_eq!(pool.cached(), 0);
    assert!(pool.lookup("a", 1, "x").is_none());
    assert_eq!(pool.options().tick_ms, float(5.0));
}

#[test]
fn the_replay_cache_is_bounded() {
    let mut pool =
        ReplayPool::new(1, ReplayOptions { tick_ms: float(5.0) }).with_cache_capacity(3);
    for index in 0..10 {
        let hash = program_hash(format!("{index}").as_bytes());
        assert!(matches!(pool.begin("easy", 1, &hash), Admission::Admitted));
        pool.finish("easy", 1, &hash, Some(&run(1.0, Terminal::completed())));
        assert!(pool.cached() <= 3);
    }
}

#[test]
fn programs_are_hashed_over_their_bytes() {
    assert_eq!(
        program_hash(b"abc"),
        "ba7816bf8f01cfea414140de5dae2223b00361a396177a9cb410ff61f20015ad"
    );
}

fn preview(hash: &str, final_score: f64) -> ClientPreview {
    ClientPreview {
        score_result: score(final_score),
        result_voxels_hash: hash.to_string(),
        engine_version: "fake".to_string(),
        tick_ms: float(5.0),
    }
}

#[test]
fn client_preview_divergence_is_reported() {
    let mut server = default_server();
    let honest = server.score(submission("sub-1", "easy", 1), 72.0);
    assert!(!honest.replay.diverged_from_client);

    let mut lying = submission("sub-2", "easy", 1);
    lying.client_preview = Some(preview(&"deadbeef".repeat(8), 100.0));
    let checked = server.score(lying, 72.0);
    assert!(checked.replay.diverged_from_client);
    // The authoritative score is unaffected by what the client claimed.
    assert_eq!(checked.score.final_score, honest.score.final_score);

    let outcome = run(72.0, Terminal::completed());
    assert!(!diverged(None, &outcome));
    assert!(!diverged(Some(&preview(&"ab".repeat(32), 72.0)), &outcome));
    assert!(diverged(Some(&preview(&"cd".repeat(32), 72.0)), &outcome));
}

#[test]
fn a_scored_result_reports_which_engine_produced_it() {
    let mut server = Server::new(two_modes(), config());
    let cutter = server.score(cutter_submission("m-1"), 100.0);
    assert_eq!(cutter.programming_mode, ProgrammingMode::CutterGrid);
    let servo = server.score(submission("m-2", "neat-short-cap", 1), 100.0);
    assert_eq!(servo.programming_mode, ProgrammingMode::Servo);
}

#[test]
fn the_idempotency_store_is_bounded() {
    let mut server = Server::new(
        vec![challenge("easy", 1, -1.0)],
        ServiceConfig { max_retained_submissions: 8, ..ServiceConfig::default() },
    );
    for index in 0..25 {
        server.score(submission(&format!("sub-{index}"), "easy", 1), 40.0);
    }
    assert!(
        server.service.retained_submissions() <= 8,
        "retained {}",
        server.service.retained_submissions()
    );
    // Scoring an evicted submission again is deterministic.
    let again = server.score(submission("sub-0", "easy", 1), 40.0);
    let fresh = server.score(submission("sub-fresh", "easy", 1), 40.0);
    assert_eq!(again.score.completion_score, fresh.score.completion_score);
}

#[test]
fn usage_records_the_calibration_datum_and_no_display_name() {
    let mut server = default_server();
    let (result, event) = server
        .service
        .create_submission_for(
            submission("sub-1", "easy", 1),
            Some("u-8f21".to_string()),
            replayed(72.0),
            float(5.0),
            T0,
        )
        .unwrap();
    match event.expect("a new result is an event") {
        UsageEvent::Submission {
            ts,
            player_id,
            challenge_id,
            challenge_version,
            mode,
            completion_score,
            final_score,
            blocks,
            commands,
            ..
        } => {
            assert_eq!(ts, T0);
            assert_eq!(player_id.as_deref(), Some("u-8f21"));
            assert_eq!(challenge_id, "easy");
            assert_eq!(challenge_version, 1);
            assert!(is_servo(mode));
            assert_eq!(completion_score, result.score.completion_score);
            assert_eq!(final_score, result.score.final_score);
            assert_eq!((blocks, commands), (1, 1));
        }
        other => panic!("{other:?}"),
    }
}

#[test]
fn malformed_voxel_keys_are_named() {
    let keys = vec!["1,2,3".to_string(), "oops".to_string()];
    let error = read_voxels(&keys).unwrap_err();
    assert_eq!(error.code(), HcrErrorCode::ProgramInvalid);
    assert!(error.message().contains("oops"), "{}", error.message());
    let read = read_voxels(&keys[..1].to_vec()).unwrap();
    assert_eq!(read, vec![VoxelCoord { x: 1, y: 2, z: 3 }]);
}

#[test]
fn an_oversized_program_is_rejected_with_the_cap() {
    let mut server = default_server();
    let refused = server.service.create_submission_for(
        submission("sub-big", "easy", 1),
        None,
        Err(ServiceError::from_sim(SimError::CommandLimitExceeded { limit: 500 })),
        float(5.0),
        T0,
    );
    assert!(matches!(refused, Err(ServiceError::ProgramTooLarge { limit: 500 })));
}

#[test]
fn an_invalid_joint_names_the_offending_block() {
    let mut server = default_server();
    let unknown = SimError::UnknownJoint {
        joint_id: "nonexistent".to_string(),
        message: "Unknown joint.".to_string(),
    };
    match server.service.create_submission_for(
        submission("sub-x", "easy", 1),
        None,
        Err(ServiceError::from_sim(unknown)),
        float(5.0),
        T0,
    ) {
        Err(error @ ServiceError::ProgramInvalid { .. }) => {
            // The field travels to the editor so it can highlight the block.
            assert_eq!(error.to_wire().field.as_deref(), Some("nonexistent"));
        }
        other => panic!("expected ProgramInvalid, got {other:?}"),
    }
}

#[test]
fn a_rejected_trajectory_becomes_a_trajectory_rejected_error() {
    let mut server = Server::new(two_modes(), config());
    let rejected = ServiceError::TrajectoryRejected {
        rejection: "SIGNATURE_MISMATCH".to_string(),
        message: "The plan belongs to another challenge.".to_string(),
        field: Some("reference-1".to_string()),
    };
    let error = server
        .service
        .create_submission_for(cutter_submission("sub-cutter-4"), None, Err(rejected), float(5.0), T0)
        .expect_err("a plan for another challenge must not score");

    let wire = error.to_wire();
    assert_eq!(wire.code, HcrErrorCode::TrajectoryRejected);
    assert!(!wire.retryable, "replanning is required, not retrying");
    assert_eq!(wire.field.as_deref(), Some("reference-1"));
    assert_eq!(
        wire.details,
        Some(vec![("rejection".to_string(), "SIGNATURE_MISMATCH".to_string())])
    );
}

#[test]
fn a_malformed_voxel_key_is_reported_as_a_validation_error() {
    let error = read_voxels(&vec!["not-a-key".to_string()]).unwrap_err();
    assert_eq!(status_for(error.code()), 422);
    assert_eq!(error.code(), HcrErrorCode::ProgramInvalid);
}

// ---------------------------------------------------------------------------
// Sessions
// ---------------------------------------------------------------------------

#[test]
fn operations_on_an_unknown_session_are_404() {
    let mut server = default_server();
    let call = HttpCall::post("/api/v1/sessions/s-nope/next".to_string(), Vec::new());
    match route(&call) {
        Ok(Route::NextItem { id }) => {
            let error = server.service.next_item(&id, T0).unwrap_err();
            assert_eq!(status_for(error.code()), 404);
        }
        other => panic!("{other:?}"),
    }
}

#[test]
fn a_session_runs_end_to_end() {
    let mut server = default_server();
    let opened = server.start(&SessionStart::default(), T0).unwrap();

    assert_eq!(opened.state, SessionLifecycle::Active);
    assert_eq!(opened.response_count, 0);
    // The engine starts from an infinite standard error, which is no number.
    assert!(opened.standard_error.is_none());

    let session_id = opened.session_id.clone();
    let mut answered = 0u32;

    while answered < 3 {
        let Ok(item) = server.next_item(&session_id, T0) else {
            break;
        };
        let submission_id = format!("sub-{answered}");
        server.score(
            submission(&submission_id, &item.challenge_id, item.challenge_version),
            85.0,
        );
        let (outcome, _) =
            server.respond(&session_id, &item.item_ref, &submission_id, T0).unwrap();

        answered += 1;
        assert!(outcome.theta.is_finite());
        assert!(outcome.standard_error.is_finite());
        assert!(outcome.correct);
        assert_eq!(outcome.raw_score, float(0.85));
        if outcome.terminated {
            break;
        }
    }

    assert!(answered >= 2, "min_items should have been served");

    let result = server.service.finalize_session(&session_id, 1_234, T0).unwrap();
    assert_eq!(result.total_items, answered);
    assert_eq!(result.items.len() as u32, answered);
    assert_eq!(result.duration_ms, 1_234);
    assert!(result.final_theta.is_finite());
    assert!(!result.termination_reason.is_empty());

    // Finalizing removes the session.
    assert!(matches!(
        server.service.session_snapshot(&session_id, T0),
        Err(ServiceError::SessionNotFound(_))
    ));
}

#[test]
fn asking_for_the_next_item_twice_returns_the_same_item() {
    let mut server = default_server();
    let session_id = server.open();

    let first = server.next_item(&session_id, T0).unwrap();
    let second = server.next_item(&session_id, T0 + 5).unwrap();

    assert_eq!(first.challenge_id, second.challenge_id);
    assert_eq!(first.item_ref, second.item_ref);

    let snapshot = server.service.session_snapshot(&session_id, T0).unwrap();
    assert_eq!(snapshot.state, SessionLifecycle::AwaitingResponse);
    assert_eq!(snapshot.response_count, 0);
}

#[test]
fn responding_with_a_forged_reference_is_refused() {
    let mut server = default_server();
    let session_id = server.open();
    let item = server.next_item(&session_id, T0).unwrap();
    server.score(submission("sub-1", &item.challenge_id, item.challenge_version), 85.0);

    // Minted with the wrong key.
    let forged = ItemRefSigner::new(b"attacker".to_vec())
        .sign(&encode(&claims(&session_id, 0, &item.challenge_id, 1)));

    assert!(matches!(
        server.respond(&session_id, &forged, "sub-1", T0),
        Err(ServiceError::ItemRefInvalid(_))
    ));

    // The session is untouched.
    let snapshot = server.service.session_snapshot(&session_id, T0).unwrap();
    assert_eq!(snapshot.response_count, 0);
}

#[test]
fn a_reference_from_another_session_is_refused() {
    let mut server = default_server();
    let first = server.open();
    let second = server.open();

    let item = server.next_item(&first, T0).unwrap();
    server.next_item(&second, T0).unwrap();
    server.score(submission("sub-1", &item.challenge_id, item.challenge_version), 85.0);

    // A genuinely signed token, presented against the wrong session.
    assert!(matches!(
        server.respond(&second, &item.item_ref, "sub-1", T0),
        Err(ServiceError::ItemRefInvalid(_))
    ));
}

#[test]
fn responding_before_the_submission_is_scored_is_refused() {
    let mut server = default_server();
    let session_id = server.open();
    let item = server.next_item(&session_id, T0).unwrap();

    // The score must come from replay, never from the caller.
    assert!(matches!(
        server.respond(&session_id, &item.item_ref, "never-scored", T0),
        Err(ServiceError::ItemRefInvalid(_))
    ));
}

#[test]
fn a_submission_for_a_different_challenge_is_refused() {
    let mut server = default_server();
    let session_id = server.open();
    let item = server.next_item(&session_id, T0).unwrap();

    // Score some *other* challenge, then try to answer with it.
    let other = ["easy", "medium", "hard"]
        .into_iter()
        .find(|id| *id != item.challenge_id)
        .unwrap();
    server.score(submission("sub-other", other, 1), 85.0);

    assert!(matches!(
        server.respond(&session_id, &item.item_ref, "sub-other", T0),
        Err(ServiceError::ItemRefInvalid(_))
    ));
}

#[test]
fn a_response_is_held_to_its_reference_by_the_service() {
    let mut server = default_server();
    let session_id = server.open();
    let item = server.next_item(&session_id, T0).unwrap();
    server.score(submission("sub-1", &item.challenge_id, item.challenge_version), 85.0);
    let own = claims(&session_id, 0, &item.challenge_id, item.challenge_version);
    let respond = |server: &mut Server, item_ref: &str, decoded: Option<ItemRefClaims>| {
        let request = SessionRespond {
            session_id: session_id.clone(),
            item_ref: item_ref.to_string(),
            submission_id: "sub-1".to_string(),
        };
        assert!(server.service.scored_response(&request, &decoded).is_err());
        server.service.respond(&request, &decoded, T0).unwrap_err()
    };

    // Claims that read well do not stand in for a reference that does not verify.
    assert_eq!(
        respond(&mut server, "no-dot", Some(own.clone())),
        ServiceError::ItemRefInvalid("malformed token")
    );
    let foreign = ItemRefSigner::new(b"attacker".to_vec()).sign(&encode(&own));
    assert_eq!(
        respond(&mut server, &foreign, Some(own)),
        ServiceError::ItemRefInvalid("signature mismatch")
    );
    // A reference that verifies still has to spell claims.
    let unreadable = server.service.signer().sign(b"not json");
    assert_eq!(
        respond(&mut server, &unreadable, None),
        ServiceError::ItemRefInvalid("unreadable claims")
    );

    let snapshot = server.service.session_snapshot(&session_id, T0).unwrap();
    assert_eq!(snapshot.state, SessionLifecycle::AwaitingResponse);
    assert_eq!(snapshot.response_count, 0);
    // The score is the stored one, as a fraction.
    let (outcome, _) = server.respond(&session_id, &item.item_ref, "sub-1", T0).unwrap();
    assert_eq!(outcome.raw_score, float(0.85));
    assert_eq!(server.service.session_snapshot(&session_id, T0).unwrap().response_count, 1);
}

#[test]
fn an_answer_is_recorded_and_told_as_the_engine_judged_it() {
    let verdict =
        EngineVerdict { correct: true, ability: float(0.7), standard_error: float(0.4) };
    let (record, outcome) = answered(
        "medium".to_string(),
        2,
        float(0.85),
        float(-0.1),
        verdict,
        true,
        Some("precise".to_string()),
    );
    assert_eq!(record.challenge_id, "medium");
    assert_eq!(record.challenge_version, 2);
    assert_eq!((record.theta_before, record.theta_after), (float(-0.1), float(0.7)));
    assert_eq!((record.raw_score, outcome.raw_score), (float(0.85), float(0.85)));
    assert!(record.correct && outcome.correct && outcome.terminated);
    assert_eq!((outcome.theta, outcome.standard_error), (float(0.7), float(0.4)));
    assert_eq!(outcome.termination_reason.as_deref(), Some("precise"));

    let result = concluded(
        "s-1".to_string(),
        EngineResult {
            ability: float(0.7),
            standard_error: float(0.4),
            items: 1,
            reason: "precise".to_string(),
        },
        77,
        vec![record.clone()],
    );
    assert_eq!(result.session_id, "s-1");
    assert_eq!((result.final_theta, result.standard_error), (float(0.7), float(0.4)));
    assert_eq!((result.total_items, result.duration_ms), (1, 77));
    assert_eq!(result.termination_reason, "precise");
    assert_eq!(result.items, vec![record]);
}

#[test]
fn a_response_counts_once() {
    let mut server = default_server();
    let session_id = server.open();
    let item = server.next_item(&session_id, T0).unwrap();
    server.score(submission("sub-1", &item.challenge_id, item.challenge_version), 85.0);
    let (outcome, event) = server.respond(&session_id, &item.item_ref, "sub-1", T0 + 9).unwrap();
    match event {
        UsageEvent::SessionResponse { ts, session_id: of, challenge_id, theta, .. } => {
            assert_eq!(ts, T0 + 9);
            assert_eq!(of, session_id);
            assert_eq!(challenge_id, item.challenge_id);
            assert_eq!(theta, outcome.theta);
        }
        other => panic!("{other:?}"),
    }
    assert_eq!(
        server.respond(&session_id, &item.item_ref, "sub-1", T0 + 10),
        Err(ServiceError::SessionNotAwaitingResponse)
    );
    // An older reference does not answer a newer item.
    server.next_item(&session_id, T0).unwrap();
    assert!(matches!(
        server.respond(&session_id, &item.item_ref, "sub-1", T0 + 10),
        Err(ServiceError::ItemRefInvalid(_))
    ));
}

#[test]
fn a_session_over_an_empty_catalog_is_refused() {
    let mut server = Server::new(vec![], config());
    assert!(matches!(
        server.start(&SessionStart::default(), T0),
        Err(ServiceError::BankExhausted)
    ));
}

#[test]
fn operations_on_an_unknown_session_are_reported() {
    let mut server = default_server();
    assert!(matches!(server.next_item("s-nope", T0), Err(ServiceError::SessionNotFound(_))));
    assert!(matches!(
        server.service.finalize_session("s-nope", 0, T0),
        Err(ServiceError::SessionNotFound(_))
    ));
}

#[test]
fn sessions_are_independent() {
    let mut server = default_server();
    let a = server.open();
    let b = server.open();

    assert_ne!(a, b);
    assert_eq!(server.service.live_sessions(), 2);

    let item = server.next_item(&a, T0).unwrap();
    server.score(submission("sub-a", &item.challenge_id, item.challenge_version), 85.0);
    server.respond(&a, &item.item_ref, "sub-a", T0).unwrap();

    // Answering in `a` must not advance `b`.
    assert_eq!(server.service.session_snapshot(&a, T0).unwrap().response_count, 1);
    assert_eq!(server.service.session_snapshot(&b, T0).unwrap().response_count, 0);
}

#[test]
fn session_names_come_from_the_seed_and_the_count() {
    let mut server = default_server();
    assert_eq!(server.open(), format!("s-{:016x}", 99u64));
    assert_eq!(server.open(), format!("s-{:016x}", 99u64 ^ 0x9E37_79B9_7F4A_7C15));
}

#[test]
fn idle_sessions_are_evicted() {
    let mut server = timed_server(10_000);
    let session_id = server.open();
    assert_eq!(server.service.live_sessions(), 1);

    // Still fresh.
    assert!(server.service.evict_idle_sessions(T0 + 5_000).is_empty());
    assert_eq!(server.service.live_sessions(), 1);

    // Past the timeout.
    let evicted = server.service.evict_idle_sessions(T0 + 15_000);
    assert_eq!(evicted, vec![session_id.clone()]);
    assert_eq!(server.service.live_sessions(), 0);

    assert!(matches!(
        server.next_item(&session_id, T0 + 15_000),
        Err(ServiceError::SessionNotFound(_))
    ));
}

#[test]
fn activity_keeps_a_session_alive() {
    let mut server = timed_server(10_000);
    let session_id = server.open();

    // Touch the session just before the timeout would fire, three times over.
    for step in 1..4 {
        let now = T0 + 9_000 * step;
        server.service.session_snapshot(&session_id, now).unwrap();
        assert!(server.service.evict_idle_sessions(now).is_empty());
    }

    assert_eq!(server.service.live_sessions(), 1);
}

#[test]
fn eviction_leaves_other_sessions_untouched() {
    let mut server = timed_server(10_000);
    let stale = server.open();
    let fresh = server.start(&SessionStart::default(), T0 + 9_000).unwrap().session_id;

    let evicted = server.service.evict_idle_sessions(T0 + 14_000);

    assert_eq!(evicted, vec![stale]);
    assert!(server.service.session_snapshot(&fresh, T0 + 14_000).is_ok());
}

fn grid_session() -> SessionStart {
    SessionStart { programming_mode: ProgrammingMode::CutterGrid, ..SessionStart::default() }
}

#[test]
fn a_cutter_grid_session_serves_only_profiled_items() {
    let mut server = Server::new(two_modes(), config());
    let session_id = server.start(&grid_session(), T0).unwrap().session_id;
    let item = server.next_item(&session_id, T0).unwrap();
    assert_eq!(item.challenge_id, "neat-short-cap");
}

#[test]
fn a_cutter_grid_session_refuses_a_servo_response() {
    let mut server = Server::new(two_modes(), config());
    let session_id = server.start(&grid_session(), T0).unwrap().session_id;
    let item = server.next_item(&session_id, T0).unwrap();
    server.score(submission("s-1", &item.challenge_id, 1), 85.0);

    let error = server.respond(&session_id, &item.item_ref, "s-1", T0).unwrap_err();
    assert_eq!(error.code(), HcrErrorCode::ItemRefInvalid);
}

#[test]
fn a_cutter_grid_session_accepts_a_cutter_grid_response() {
    let mut server = Server::new(two_modes(), config());
    let session_id = server.start(&grid_session(), T0).unwrap().session_id;
    let item = server.next_item(&session_id, T0).unwrap();
    server.score(cutter_submission("s-2"), 100.0);

    let (outcome, _) = server.respond(&session_id, &item.item_ref, "s-2", T0).unwrap();
    assert!(outcome.correct, "a perfect cut should count as mastery");
}

#[test]
fn a_servo_session_still_sees_servo_only_items() {
    let mut server = Server::new(two_modes(), config());
    let session_id = server.open();

    let mut seen = Vec::new();
    for index in 0..2 {
        let item = server.next_item(&session_id, T0).unwrap();
        let id = format!("d-{index}");
        server.score(submission(&id, &item.challenge_id, 1), 85.0);
        server.respond(&session_id, &item.item_ref, &id, T0).unwrap();
        seen.push(item.challenge_id);
    }

    assert!(seen.iter().any(|id| id == "servo-only"), "{seen:?}");
}

#[test]
fn engine_refusals_are_mapped() {
    assert_eq!(
        map_session_error(EngineError::AlreadyTerminated),
        ServiceError::SessionTerminated
    );
    assert_eq!(
        map_session_error(EngineError::NoCurrentQuestion),
        ServiceError::SessionNotAwaitingResponse
    );
    assert_eq!(
        map_session_error(EngineError::NoQuestionAvailable),
        ServiceError::BankExhausted
    );
    assert_eq!(
        map_session_error(EngineError::MissingParam("x".to_string())),
        ServiceError::Internal("question bank rejected the request")
    );
    assert_eq!(
        after_selection(true, Ok(()), Some(0), None),
        Err(ServiceError::SessionTerminated)
    );
    assert!(matches!(
        after_selection(false, Ok(()), Some(3), Some(2)),
        Ok(Choice::Selected { index: 3, expected_remaining: Some(2) })
    ));
    assert!(matches!(
        after_selection(false, Ok(()), None, None),
        Err(ServiceError::Internal(_))
    ));
}

// ---------------------------------------------------------------------------
// Rounds through the service
// ---------------------------------------------------------------------------

#[test]
fn the_challenge_is_not_revealed_before_the_round_starts() {
    let mut server = timed_server(60_000);
    let service = &mut server.service;
    let state =
        service.create_match(round_config(ProgrammingMode::Servo, "easy"), T0).unwrap();
    service.join_match(&state.match_id, "alice", "Alice", T0).unwrap();

    // Handing it out during the lobby would give an early joiner a head start.
    assert!(service.match_challenge(&state.match_id, T0).is_err());
    assert_eq!(state.phase, MatchPhase::Lobby);
    assert!(state.closes_at.is_none());

    let started = service.start_match(&state.match_id, T0).unwrap();
    assert_eq!(started.phase, MatchPhase::Running);
    assert_eq!(started.opens_at, Some(T0));
    assert_eq!(started.closes_at, Some(T0 + 60_000));
    assert_eq!(service.match_challenge(&state.match_id, T0).unwrap().challenge.id, "easy");
}

#[test]
fn everyone_receives_the_identical_challenge() {
    let mut server = timed_server(60_000);
    let service = &mut server.service;
    let state =
        service.create_match(round_config(ProgrammingMode::Servo, "easy"), T0).unwrap();
    for player in ["alice", "bob", "carol"] {
        service.join_match(&state.match_id, player, player, T0).unwrap();
    }
    service.start_match(&state.match_id, T0).unwrap();

    let first = service.match_challenge(&state.match_id, T0).unwrap().clone();
    let second = service.match_challenge(&state.match_id, T0).unwrap();
    assert_eq!(first.challenge.id, second.challenge.id);
    assert_eq!(first.meta.version, second.meta.version);
}

/// Drive a round over its routes; says the status and the failure, if any.
fn drive(service: &mut HcrService, call: HttpCall, now: u64) -> (u16, Option<ServiceError>) {
    let answered = route(&call).and_then(|route| match route {
        Route::MatchChallenge { id } => service.match_challenge(&id, now).map(|_| ()),
        Route::MatchResults { id } => service.match_results(&id, now).map(|_| ()),
        Route::StartMatch { id } => service.start_match(&id, now).map(|_| ()),
        Route::JoinMatch { id, player, display_name } => {
            service.join_match(&id, &player, &display_name, now).map(|_| ())
        }
        other => panic!("{other:?}"),
    });
    match answered {
        Ok(()) => (200, None),
        Err(error) => (status_for(error.code()), Some(error)),
    }
}

fn path(match_id: &str, what: &str) -> String {
    format!("/api/v1/matches/{match_id}/{what}")
}

#[test]
fn a_round_can_be_created_joined_and_started_over_http() {
    let mut server = default_server();
    let service = &mut server.service;
    let state = service.create_match(MatchConfig::default(), T0).unwrap();
    let match_id = state.match_id;
    assert_eq!(state.phase, MatchPhase::Lobby);

    // The challenge is withheld until the round starts.
    assert_eq!(drive(service, HttpCall::get(path(&match_id, "challenge")), T0).0, 409);

    let join = HttpCall::post(path(&match_id, "join"), Vec::new()).as_player("alice".to_string());
    assert_eq!(drive(service, join, T0).0, 200);
    assert!(service.can_start_match(&match_id, T0));
    let start = HttpCall::post(path(&match_id, "start"), Vec::new());
    assert_eq!(drive(service, start, T0).0, 200);

    assert_eq!(drive(service, HttpCall::get(path(&match_id, "challenge")), T0).0, 200);
}

#[test]
fn a_round_that_is_not_there_yet_says_so_in_its_own_code() {
    let mut server = default_server();
    let service = &mut server.service;
    let match_id = service.create_match(MatchConfig::default(), T0).unwrap().match_id;

    let (status, error) = drive(service, HttpCall::get(path(&match_id, "challenge")), T0);
    let early = error.unwrap();
    assert_eq!(status, 409);
    assert_eq!(early.code(), HcrErrorCode::MatchNotReady);
    assert!(early.message().contains("revealed when the round starts"));

    let join = HttpCall::post(path(&match_id, "join"), Vec::new()).as_player("alice".to_string());
    drive(service, join, T0);
    drive(service, HttpCall::post(path(&match_id, "start"), Vec::new()), T0);

    let (status, error) = drive(service, HttpCall::get(path(&match_id, "results")), T0);
    let running = error.unwrap();
    assert_eq!(status, 409);
    assert_eq!(running.code(), HcrErrorCode::MatchNotReady);
    assert!(running.message().contains("published when the round closes"));
}

#[test]
fn an_acknowledgement_never_carries_a_score() {
    let (mut server, match_id) = running_round(ProgrammingMode::Servo, "easy");
    // An acknowledgement has no place for a score, and asking for results early
    // is refused outright.
    let ack = submit(&mut server, &match_id, "alice", submission("sub-1", "easy", 1), T0);
    assert!(ack.0);
    assert!(server.service.match_results(&match_id, T0).is_err());
}

#[test]
fn joining_after_the_start_is_refused() {
    let mut server = timed_server(60_000);
    let service = &mut server.service;
    let state =
        service.create_match(round_config(ProgrammingMode::Servo, "easy"), T0).unwrap();
    assert!(service.can_start_match(&state.match_id, T0));
    service.start_match(&state.match_id, T0).unwrap();

    assert!(service.join_match(&state.match_id, "latecomer", "Late", T0).is_err());
}

#[test]
fn submissions_are_accepted_before_the_deadline_and_refused_after() {
    let (mut server, match_id) = running_round(ProgrammingMode::Servo, "easy");
    let inside = submit(&mut server, &match_id, "alice", submission("sub-1", "easy", 1), T0 + 59_999);
    assert!(inside.0);
    // One millisecond past the close.
    let outside =
        submit(&mut server, &match_id, "alice", submission("sub-2", "easy", 1), T0 + 60_001);
    assert_eq!(outside, (false, Some(MatchRejection::AfterDeadline)));
}

fn running_round(mode: ProgrammingMode, challenge_id: &str) -> (Server, String) {
    let mut dtos = two_modes();
    dtos.push(challenge("easy", 1, -1.0));
    dtos.push(challenge("hard", 1, 1.0));
    let mut server = Server::new(dtos, config());
    let state = server.service.create_match(round_config(mode, challenge_id), T0).unwrap();
    server.service.join_match(&state.match_id, "alice", "Alice", T0).unwrap();
    server.service.start_match(&state.match_id, T0).unwrap();
    (server, state.match_id)
}

fn submit(
    server: &mut Server,
    match_id: &str,
    player: &str,
    request: SubmissionCreate,
    now: u64,
) -> (bool, Option<MatchRejection>) {
    let ack = server
        .service
        .submit_to_match(match_id, player, request, replayed(100.0), float(5.0), now)
        .unwrap()
        .0;
    assert_eq!(ack.server_received_at, now);
    (ack.accepted, ack.rejected_reason)
}

#[test]
fn results_become_available_once_the_deadline_passes() {
    let (mut server, match_id) = running_round(ProgrammingMode::Servo, "easy");
    submit(&mut server, &match_id, "alice", submission("sub-1", "easy", 1), T0);

    assert!(server.service.match_results(&match_id, T0).is_err());
    assert_eq!(
        server.service.match_state(&match_id, T0 + 60_001).unwrap().phase,
        MatchPhase::Results
    );
    let (results, event) = server.service.match_results(&match_id, T0 + 60_001).unwrap();
    assert_eq!(results.rows.len(), 1);
    assert_eq!(results.rows[0].rank, 1);
    assert_eq!(results.rows[0].player_id, "alice");
    // Published so a disputed deadline decision is checkable afterwards.
    assert_eq!(results.rows[0].server_received_at, Some(T0));
    match event {
        UsageEvent::MatchResults { players, submitted, top_completion, .. } => {
            assert_eq!((players, submitted), (1, 1));
            assert_eq!(top_completion, float(100.0));
        }
        other => panic!("{other:?}"),
    }
}

#[test]
fn a_non_participant_cannot_submit() {
    let (mut server, match_id) = running_round(ProgrammingMode::Servo, "easy");
    let ack = submit(&mut server, &match_id, "mallory", submission("sub-x", "easy", 1), T0);
    assert_eq!(ack.1, Some(MatchRejection::NotParticipant));
}

#[test]
fn submissions_for_another_challenge_are_refused() {
    let (mut server, match_id) = running_round(ProgrammingMode::Servo, "easy");
    let ack = submit(&mut server, &match_id, "alice", submission("sub-w", "hard", 1), T0);
    assert_eq!(ack.1, Some(MatchRejection::WrongChallenge));
}

#[test]
fn a_cutter_grid_round_accepts_a_cutter_grid_submission() {
    let (mut server, match_id) = running_round(ProgrammingMode::CutterGrid, "neat-short-cap");
    assert!(submit(&mut server, &match_id, "alice", cutter_submission("r-1"), T0).0);
}

#[test]
fn a_servo_round_refuses_a_cutter_grid_submission() {
    let (mut server, match_id) = running_round(ProgrammingMode::Servo, "neat-short-cap");
    let ack = submit(&mut server, &match_id, "alice", cutter_submission("r-2"), T0);
    assert_eq!(ack, (false, Some(MatchRejection::WrongProgrammingMode)));
}

#[test]
fn a_cutter_grid_round_refuses_a_servo_submission() {
    let (mut server, match_id) = running_round(ProgrammingMode::CutterGrid, "neat-short-cap");
    let request = submission("r-3", "neat-short-cap", 1);
    let ack = submit(&mut server, &match_id, "alice", request, T0);
    assert_eq!(ack, (false, Some(MatchRejection::WrongProgrammingMode)));
}

#[test]
fn a_round_cannot_pin_a_challenge_that_lacks_the_mode() {
    let mut server = Server::new(two_modes(), config());
    let error = server
        .service
        .create_match(round_config(ProgrammingMode::CutterGrid, "servo-only"), T0)
        .unwrap_err();
    assert_eq!(error.code(), HcrErrorCode::ProgramInvalid);
}

#[test]
fn an_unpinned_cutter_grid_round_picks_a_supported_challenge() {
    let mut server = Server::new(two_modes(), config());
    let service = &mut server.service;
    let mut config = round_config(ProgrammingMode::CutterGrid, "neat-short-cap");
    config.challenge_ref = None;
    let state = service.create_match(config, T0).unwrap();
    service.join_match(&state.match_id, "p1", "Player One", T0).unwrap();
    assert_eq!(service.start_match(&state.match_id, T0).unwrap().phase, MatchPhase::Running);
    assert_eq!(
        service.match_challenge(&state.match_id, T0).unwrap().challenge.id,
        "neat-short-cap"
    );
}

#[test]
fn results_report_the_round_mode() {
    let (mut server, match_id) = running_round(ProgrammingMode::CutterGrid, "neat-short-cap");
    submit(&mut server, &match_id, "alice", cutter_submission("r-4"), T0);
    let (results, _) = server.service.match_results(&match_id, T0 + 120_000).unwrap();
    assert_eq!(results.programming_mode, ProgrammingMode::CutterGrid);
    assert_eq!(results.rows.len(), 1);
    assert_eq!(results.rows[0].completion_score, float(100.0));
}

#[test]
fn time_sync_echoes_the_client_stamp_with_the_server_clock() {
    let server = timed_server(60_000);
    let reply = server.service.time_sync(123, T0);
    assert_eq!(reply.client_sent_at, 123);
    assert_eq!(reply.server_time, T0);
}

#[test]
fn a_sweep_drops_idle_sessions_and_finished_rounds() {
    let mut server = timed_server(10_000);
    let session = server.open();
    let round = server
        .service
        .create_match(round_config(ProgrammingMode::Servo, "easy"), T0)
        .unwrap()
        .match_id;
    assert_eq!(server.service.live_rounds(), 1);
    let (sessions, rounds) = server.service.evict_idle(T0 + 24 * 3_600_000);
    assert_eq!(sessions, vec![session]);
    assert_eq!(rounds, vec![round]);
    assert_eq!(server.service.live_rounds(), 0);
}

#[test]
fn a_cancelled_round_publishes_nothing() {
    let (mut server, match_id) = running_round(ProgrammingMode::Servo, "easy");
    let state = server.service.cancel_match(&match_id, T0).unwrap();
    assert_eq!(state.phase, MatchPhase::Cancelled);
    assert!(server.service.match_results(&match_id, T0 + 120_000).is_err());
}

#[test]
fn challenges_are_listed_and_fetched() {
    let server = default_server();
    assert_eq!(server.service.list_challenges().len(), 3);
    assert_eq!(server.service.get_challenge("easy", None).unwrap().meta.version, 1);
    assert!(server.service.get_challenge("easy", Some(2)).is_err());
    assert_eq!(server.service.catalog().len(), 3);
}

// ---------------------------------------------------------------------------
// Usage and clocks
// ---------------------------------------------------------------------------

#[test]
fn a_cutter_grid_row_records_its_mode() {
    let result = SubmissionResult {
        submission_id: "x".to_string(),
        challenge_id: "neat-short-cap".to_string(),
        challenge_version: 1,
        status: SubmissionStatus::Completed,
        programming_mode: ProgrammingMode::CutterGrid,
        score: score(100.0),
        metrics: ProgramMetrics {
            source_block_count: 5,
            executed_command_count: 22,
            estimated_duration_ms: float(12_348.0),
        },
        result_voxels_hash: "0".repeat(64),
        terminal: Terminal::completed(),
        replay: ReplayInfo {
            engine_version: ENGINE_VERSION.to_string(),
            tick_ms: float(5.0),
            simulated_ms: float(12_348.0),
            diverged_from_client: false,
        },
        error: None,
    };
    let event =
        UsageEvent::from_submission(1, None, &result, None, None, ProgrammingMode::CutterGrid);
    match event {
        UsageEvent::Submission { mode, blocks, commands, terminal, .. } => {
            assert!(!is_servo(mode));
            assert_eq!(mode.as_str(), "cutter-grid");
            assert_eq!((blocks, commands), (5, 22));
            assert_eq!(terminal, TerminalReason::Completed);
        }
        other => panic!("{other:?}"),
    }
}

#[test]
fn a_lesson_event_is_kept_whole() {
    let event = LessonEventCreate {
        lesson_id: "cutter-grid-fixed-axes".to_string(),
        section: 11,
        activity: None,
        outcome: LessonOutcome::SectionPassed,
        tests: Some(2),
        mode: Some(ProgrammingMode::CutterGrid),
    };
    match UsageEvent::from_lesson(4, Some("u-1".to_string()), event.clone()) {
        UsageEvent::Lesson { ts, player_id, event: kept } => {
            assert_eq!(ts, 4);
            assert_eq!(player_id.as_deref(), Some("u-1"));
            assert_eq!(kept, event);
        }
        other => panic!("{other:?}"),
    }
}

#[test]
fn a_log_is_reopened_when_its_path_leads_elsewhere() {
    let here = FileId { device: 1, inode: 10 };
    let there = FileId { device: 1, inode: 11 };
    assert!(!must_reopen(Some(here), Some(here)));
    assert!(must_reopen(Some(here), Some(there)));
    assert!(must_reopen(Some(here), None));
    let mut notice = FailureNotice::new();
    assert!(notice.report(), "the first failure is worth a line");
    assert!(!notice.report(), "the second is not");
}

#[test]
fn a_reading_before_the_epoch_counts_as_the_epoch() {
    assert_eq!(epoch_ms(None), 0);
    assert_eq!(epoch_ms(Some(T0)), T0);
    // Any machine that builds this runs later than the tests' own epoch.
    assert!(now_ms() > T0);
}

#[test]
fn a_manual_clock_moves_only_when_told() {
    let clock = ManualClock::new(T0);
    assert_eq!(clock.now_ms(), T0);
    assert_eq!(clock.advance(5), T0 + 5);
    assert_eq!(clock.now_ms(), T0 + 5);
    clock.set(7);
    assert_eq!(clock.now_ms(), 7);
}

#[test]
fn clones_of_a_manual_clock_show_one_time() {
    let held = ManualClock::new(T0);
    let handed_out = held.clone();
    let again = handed_out.clone();
    held.advance(5_000);
    assert_eq!(handed_out.now_ms(), T0 + 5_000);
    again.set(3);
    assert_eq!(held.now_ms(), 3);
    handed_out.advance(4);
    assert_eq!((held.now_ms(), again.now_ms()), (7, 7));
    assert_eq!(ManualClock::new(T0).now_ms(), T0, "another clock is another clock");
}

#[test]
fn a_manual_clock_goes_round_past_the_largest_time() {
    let clock = ManualClock::new(u64::MAX);
    assert_eq!(clock.advance(3), 2);
    assert_eq!(clock.now_ms(), 2);
    assert_eq!(advanced(u64::MAX, 1), 0);
    assert_eq!(advanced(advanced(40, 2), u64::MAX), 41);
}

#[test]
fn the_system_clock_reads_the_time_of_day() {
    let clock = system_clock();
    let (first, second) = (clock.now_ms(), clock.now_ms());
    assert!(first > 1_600_000_000_000, "{first}");
    assert!(second + 1_000 >= first);
}

#[test]
fn the_path_of_a_response_is_authoritative() {
    let body = SessionRespond {
        session_id: "another".to_string(),
        item_ref: "ref".to_string(),
        submission_id: "sub".to_string(),
    };
    let request = response_for("mine".to_string(), body.clone());
    assert_eq!(request.session_id, "mine");
    assert_eq!((request.item_ref, request.submission_id), (body.item_ref, body.submission_id));
}
