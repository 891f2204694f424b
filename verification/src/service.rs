//! The service surface: one method per operation of the contract.
//!
//! Every method is a function of the request, the service's own state and the
//! time it is given; nothing here touches a socket, a disk or a clock. What only
//! the outside can do is handed in: the outcome of a replay, a session of the
//! adaptive engine, the encoding of a reference.

use crate::api::{
    ChallengeSummary, ReplayInfo, ResponseOutcome, SessionRespond, SessionResultDto,
    SessionSnapshot, SessionStart, SubmissionCreate, SubmissionResult, SubmissionStatus,
};
use crate::bank::{BankView, HcrDynamicBank, ServedItem};
use crate::blueprint::{Blueprint, BlueprintView};
use crate::catalog::{
    is_known, is_latest, is_menu, is_pool, latest, menu_before, playable, CatalogStore, Versions,
};
use crate::cutter::ProgrammingMode;
use crate::domain::{TerminalReason, VoxelCoord};
use crate::error::{coord_of_text, read_coord, ServiceError, ServiceResult};
use crate::exposure::{ExposureController, ExposureView};
use crate::item::ItemView;
use crate::itemref::{
    is_reference, law_a_refusal_is_an_invalid_reference, read_claims, reference, refuses,
    ItemRefClaims, ItemRefSigner,
};
use crate::meta::ChallengeDefinitionDto;
use crate::number::Real;
use crate::replay::{disagrees, diverged, ReplayOutcome, ENGINE_VERSION};
use crate::round::{
    MatchChallengeRef, MatchConfig, MatchResults, MatchState, MatchSubmissionAck, TimeSync,
};
use crate::rounding::{fraction_of_hundred, from_percent};
use crate::rounds::{
    cancels, creates, evicts, joins, publishes, reveals, shows_state, starts, submits,
    MatchRegistry, RegistryView,
};
use crate::session::{
    chooses, closes, is_stale, named_once, responds, seen_at, shows_session, stale_among, Actor,
    ActorView, Choice, SeenView, SessionConfig, SessionRegistry,
};
use crate::table::TextMap;
use crate::text::{hex_text, push_hex, same};
use crate::usage::UsageEvent;
use vstd::prelude::*;

verus! {

/// Service-wide configuration.
pub struct ServiceConfig {
    /// Adaptive session settings.
    pub session: SessionConfig,
    /// Content blueprint applied to every session.
    pub blueprint: Blueprint,
    /// Exposure policy applied to every session.
    pub exposure: ExposureController,
    /// Base seed; each session derives a distinct, reproducible seed from it.
    pub seed: u64,
    /// Sessions untouched for longer than this are evicted.
    pub session_idle_timeout_ms: u64,
    /// How long a finished round stays readable after anyone last looked at it.
    pub match_results_retention_ms: u64,
    /// A lobby nobody starts is dropped after this long untouched.
    pub match_lobby_idle_timeout_ms: u64,
    /// Cap on retained submission results. Without one the idempotency store
    /// would grow once per scored program for as long as the process runs.
    pub max_retained_submissions: usize,
}

impl Default for ServiceConfig {
    fn default() -> (r: Self)
        ensures
            r.session == SessionConfig::usual(),
            r.blueprint@.targets.len() == 0,
            r.exposure@.max_rate == (Real { bits: 0x3fc9_9999_9999_999a }),
            r.exposure@.warmup == 20,
            r.exposure@.total == 0,
            r.exposure@.counts == Map::<Seq<char>, u64>::empty(),
            r.seed == 0x5eed,
            r.session_idle_timeout_ms == 30 * 60 * 1000,
            r.match_results_retention_ms == 15 * 60 * 1000,
            r.match_lobby_idle_timeout_ms == 30 * 60 * 1000,
            r.max_retained_submissions == 20_000,
    {
        ServiceConfig {
            session: SessionConfig::default(),
            blueprint: Blueprint::unconstrained(),
            exposure: ExposureController::default(),
            seed: 0x5eed,
            session_idle_timeout_ms: 30 * 60 * 1000,
            match_results_retention_ms: 15 * 60 * 1000,
            match_lobby_idle_timeout_ms: 30 * 60 * 1000,
            max_retained_submissions: 20_000,
        }
    }
}

/// The scored submissions that are remembered, by submission.
pub type Submissions = Map<Seq<char>, SubmissionResult>;

/// The remembered submissions once one more is remembered. A full store is
/// emptied first: what is lost is idempotency for older submissions, and replay
/// is deterministic, so scoring one again gives the identical result.
pub open spec fn retaining(submissions: Submissions, cap: nat, result: SubmissionResult) -> Submissions {
    if submissions.len() >= cap {
        Submissions::empty().insert(result.submission_id@, result)
    } else {
        submissions.insert(result.submission_id@, result)
    }
}

/// What an authoritative run produced for a submission.
#[derive(Debug, PartialEq, Eq)]
pub struct Replayed {
    /// The outcome that is scored.
    pub outcome: ReplayOutcome,
    /// For a trajectory, whether its verification diverged from what the client
    /// claimed. A servo program is judged by its preview instead.
    pub trajectory_diverged: bool,
}

/// Which editor wrote the program of a submission. The submission decides, not
/// the configuration: a trajectory has no joint commands to replay, and a servo
/// program has no trajectory to verify.
pub open spec fn mode_of(request: SubmissionCreate) -> ProgrammingMode {
    if request.cutter_grid {
        ProgrammingMode::CutterGrid
    } else {
        ProgrammingMode::Servo
    }
}

/// Whether a result is what a submission scores with an outcome.
pub open spec fn is_scored(
    result: SubmissionResult,
    request: SubmissionCreate,
    replayed: Replayed,
    tick_ms: Real,
) -> bool {
    let outcome = replayed.outcome;
    &&& result.submission_id == request.submission_id
    &&& result.challenge_id == request.challenge_id
    &&& result.challenge_version == request.challenge_version
    &&& result.status == if outcome.terminal.reason is Completed {
        SubmissionStatus::Completed
    } else {
        SubmissionStatus::Error
    }
    &&& result.programming_mode == mode_of(request)
    &&& result.score == outcome.score
    &&& result.metrics == outcome.metrics
    &&& result.result_voxels_hash == outcome.result_voxels_hash
    &&& result.terminal == outcome.terminal
    &&& result.replay.engine_version@ == ENGINE_VERSION@
    &&& result.replay.tick_ms == tick_ms
    &&& result.replay.simulated_ms == outcome.simulated_ms
    &&& result.replay.diverged_from_client == if request.cutter_grid {
        replayed.trajectory_diverged
    } else {
        disagrees(request.client_preview, outcome.result_voxels_hash@)
    }
    &&& result.error is None
}

/// What is to be done with a submission.
#[derive(Debug)]
pub enum SubmissionPlan<'a> {
    /// It was scored before; here is its result.
    Stored(SubmissionResult),
    /// It has to be replayed against this challenge.
    Replay(&'a ChallengeDefinitionDto),
}

/// A session that is to be opened.
pub struct SessionPlan {
    /// Session identity.
    pub session_id: String,
    /// Editor the session is practised in.
    pub mode: ProgrammingMode,
    /// Starting ability estimate.
    pub initial_theta: Real,
    /// Adaptive settings.
    pub config: SessionConfig,
    /// Seed for the bank's selections, so the session is reproducible.
    pub seed: u64,
    /// The bank it serves from.
    pub bank: HcrDynamicBank,
}

/// What the service holds, by value.
#[verifier::ext_equal]
pub struct ServiceView {
    /// Challenges by identity and version.
    pub versions: Versions,
    /// Live sessions.
    pub sessions: Map<Seq<char>, SeenView>,
    /// Remembered submissions.
    pub submissions: Submissions,
    /// Rounds.
    pub matches: RegistryView,
    /// How many sessions were opened.
    pub ordinal: u64,
    /// Key that references are sealed with.
    pub key: Seq<u8>,
    /// Base seed.
    pub seed: u64,
    /// Adaptive session settings.
    pub session: SessionConfig,
    /// Content blueprint of every session.
    pub blueprint: BlueprintView,
    /// Exposure policy of every session.
    pub exposure: ExposureView,
    /// When an idle session is evicted.
    pub session_idle_timeout_ms: u64,
    /// How long a finished round is kept.
    pub match_results_retention_ms: u64,
    /// How long an idle lobby is kept.
    pub match_lobby_idle_timeout_ms: u64,
    /// Cap on remembered submissions.
    pub max_retained_submissions: nat,
}

/// The identity of the session opened after `ordinal` others.
pub open spec fn session_name(seed: u64, ordinal: u64) -> Seq<char> {
    "s-"@ + hex_text(
        (seed ^ ((ordinal * 0x9e37_79b9_7f4a_7c15 % 0x1_0000_0000_0000_0000) as u64)) as nat,
        16,
    )
}

/// Whether a lookup answers a request for a version of a challenge, or for the
/// latest.
pub open spec fn looks_up(
    versions: Versions,
    id: Seq<char>,
    version: Option<u32>,
    r: ServiceResult<&ChallengeDefinitionDto>,
) -> bool {
    match version {
        Some(v) => if versions.contains_key((id, v)) {
            r matches Ok(dto) && *dto == versions[(id, v)]
        } else {
            r matches Err(error) && error.is_challenge_not_found(id, version)
        },
        None => if is_known(versions, id) {
            r matches Ok(dto) && *dto == latest(versions, id)
        } else {
            r matches Err(error) && error.is_challenge_not_found(id, version)
        },
    }
}

/// Why a response is turned down before it reaches its session.
pub enum RespondRefusal {
    /// The reference does not verify under the service's key.
    NoReference,
    /// Its payload spells no claims.
    Unreadable,
    /// The reference was issued to another session.
    OtherSession,
    /// The submission is not among those remembered.
    NotScored,
    /// The submission scored another challenge than the reference is for.
    OtherChallenge,
    /// The session is not among the live ones.
    NoSession,
    /// The submission was written in another editor than the session's.
    OtherMode,
}

impl ServiceView {
    /// Why a response is turned down before it reaches its session. Its reference
    /// must verify under the service's key; `decoded` is what the payload spells.
    /// The submission must have been scored: the authoritative score is read rather
    /// than one accepted from the caller.
    pub open spec fn respond_refusal(
        self,
        request: SessionRespond,
        decoded: Option<ItemRefClaims>,
    ) -> Option<RespondRefusal> {
        let submission = self.submissions[request.submission_id@];
        if !is_reference(self.key, request.item_ref@) {
            Some(RespondRefusal::NoReference)
        } else {
            match decoded {
                None => Some(RespondRefusal::Unreadable),
                Some(claims) => if claims.session_id@ != request.session_id@ {
                    Some(RespondRefusal::OtherSession)
                } else if !self.submissions.contains_key(request.submission_id@) {
                    Some(RespondRefusal::NotScored)
                } else if submission.challenge_id@ != claims.item_id@ || submission.challenge_version
                    != claims.challenge_version {
                    Some(RespondRefusal::OtherChallenge)
                } else if !self.sessions.contains_key(request.session_id@) {
                    Some(RespondRefusal::NoSession)
                } else if submission.programming_mode != self.sessions[request.session_id@].actor.mode {
                    Some(RespondRefusal::OtherMode)
                } else {
                    None
                },
            }
        }
    }

    /// The score that a response counts for: the stored one of its submission, as a
    /// fraction of the full hundred.
    pub open spec fn response_score(self, request: SessionRespond) -> Real {
        fraction_of_hundred(self.submissions[request.submission_id@].score.final_score)
    }

    /// The sessions that were left alone for too long.
    pub open spec fn stale_sessions(self, now: u64) -> Set<Seq<char>> {
        Set::new(
            |id: Seq<char>|
                self.sessions.contains_key(id) && is_stale(
                    self.sessions[id],
                    now,
                    self.session_idle_timeout_ms,
                ),
        )
    }
}

/// Whether an error reports why a response is turned down.
pub open spec fn reports_respond(
    service: ServiceView,
    request: SessionRespond,
    error: ServiceError,
    refusal: RespondRefusal,
) -> bool {
    match refusal {
        RespondRefusal::NoReference => refuses(service.key, request.item_ref@, error),
        RespondRefusal::Unreadable => error.is_item_ref_invalid("unreadable claims"@),
        RespondRefusal::OtherSession => error.is_item_ref_invalid("issued to another session"@),
        RespondRefusal::NotScored => error.is_item_ref_invalid(
            "the referenced submission has not been scored"@,
        ),
        RespondRefusal::OtherChallenge => error.is_item_ref_invalid(
            "the submission scored a different challenge"@,
        ),
        RespondRefusal::NoSession => error.is_session_not_found(request.session_id@),
        RespondRefusal::OtherMode => error.is_item_ref_invalid(
            "the submission was written in another programming mode"@,
        ),
    }
}

/// The event that reports a response that was taken.
pub open spec fn reports_answer(
    event: UsageEvent,
    outcome: ResponseOutcome,
    request: SessionRespond,
    item_id: Seq<char>,
    session_mode: ProgrammingMode,
    now: u64,
) -> bool {
    event matches UsageEvent::SessionResponse {
        ts,
        session_id,
        challenge_id,
        mode,
        raw_score,
        correct,
        theta,
        standard_error,
    } && ts == now && session_id@ == request.session_id@ && challenge_id@ == item_id && mode
        == session_mode && raw_score == outcome.raw_score && correct == outcome.correct && theta
        == outcome.theta && standard_error == outcome.standard_error
}

/// What reporting a scored submission does: it is turned down and changes nothing, or
/// it reaches its session with the stored score, and a response that is taken is
/// reported.
pub open spec fn answers(
    before: ServiceView,
    after: ServiceView,
    request: SessionRespond,
    decoded: Option<ItemRefClaims>,
    now: u64,
    r: ServiceResult<(ResponseOutcome, UsageEvent)>,
) -> bool {
    match before.respond_refusal(request, decoded) {
        Some(refusal) => r matches Err(error) && reports_respond(before, request, error, refusal)
            && after == before,
        None => {
            let entered = before.sessions[request.session_id@].actor;
            let left = after.sessions[request.session_id@].actor;
            &&& after.sessions.contains_key(request.session_id@)
            &&& responds(
                entered,
                left,
                decoded->0,
                request.submission_id@,
                before.response_score(request),
                match r {
                    Ok(answer) => Ok(answer.0),
                    Err(error) => Err(error),
                },
            )
            &&& r matches Ok(answer) ==> reports_answer(
                answer.1,
                answer.0,
                request,
                (decoded->0).item_id@,
                entered.mode,
                now,
            )
            &&& after == (ServiceView {
                sessions: before.sessions.insert(
                    request.session_id@,
                    SeenView { actor: left, last_seen: now },
                ),
                ..before
            })
        },
    }
}

/// The backend, minus any transport.
pub struct HcrService {
    catalog: CatalogStore,
    sessions: SessionRegistry,
    signer: ItemRefSigner,
    submissions: TextMap<SubmissionResult>,
    config: ServiceConfig,
    ordinal: u64,
    matches: MatchRegistry,
}

impl View for HcrService {
    type V = ServiceView;

    closed spec fn view(&self) -> ServiceView {
        ServiceView {
            versions: self.catalog@,
            sessions: self.sessions@,
            submissions: self.submissions@,
            matches: self.matches@,
            ordinal: self.ordinal,
            key: self.signer@,
            seed: self.config.seed,
            session: self.config.session,
            blueprint: self.config.blueprint@,
            exposure: self.config.exposure@,
            session_idle_timeout_ms: self.config.session_idle_timeout_ms,
            match_results_retention_ms: self.config.match_results_retention_ms,
            match_lobby_idle_timeout_ms: self.config.match_lobby_idle_timeout_ms,
            max_retained_submissions: self.config.max_retained_submissions as nat,
        }
    }
}

/// A response for the session that a path names. The path is authoritative: a body that
/// disagreed would otherwise act on another session.
pub fn response_for(session_id: String, request: SessionRespond) -> (r: SessionRespond)
    ensures
        r == (SessionRespond { session_id, ..request }),
{
    SessionRespond {
        session_id,
        item_ref: request.item_ref,
        submission_id: request.submission_id,
    }
}

/// The sentence about a voxel key that does not parse.
pub open spec fn voxel_key_sentence(key: Seq<char>) -> Seq<char> {
    "Malformed voxel key \""@ + key + "\"."@
}

/// The cells that some keys name. The first key that names none is reported.
pub fn read_voxels(keys: &Vec<String>) -> (r: ServiceResult<Vec<VoxelCoord>>)
    ensures
        match r {
            Ok(read) => read@.len() == keys@.len() && forall|i: int|
                0 <= i < keys@.len() ==> coord_of_text((#[trigger] keys@[i])@) == Some(read@[i]),
            Err(error) => exists|i: int|
                0 <= i < keys@.len() && coord_of_text((#[trigger] keys@[i])@) is None && (forall|j: int|
                    0 <= j < i ==> coord_of_text((#[trigger] keys@[j])@) is Some) && error.wire_code()
                    == crate::wire::HcrErrorCode::ProgramInvalid && error.sentence()
                    == voxel_key_sentence(keys@[i]@) && error.block() == Some(keys@[i]@),
        },
{
    let mut read: Vec<VoxelCoord> = Vec::new();
    for i in 0..keys.len()
        invariant
            read@.len() == i,
            forall|j: int|
                0 <= j < i ==> coord_of_text((#[trigger] keys@[j])@) == Some(read@[j]),
    {
        match read_coord(keys[i].as_str()) {
            Some(cell) => {
                read.push(cell);
            },
            None => {
                let mut message: String = "Malformed voxel key \"".to_owned();
                message.append(keys[i].as_str());
                message.append("\".");
                assert(coord_of_text(keys@[i as int]@) is None);
                return Err(ServiceError::ProgramInvalid { message, field: Some(keys[i].clone()) });
            },
        }
    }
    Ok(read)
}

impl HcrService {
    /// Assemble a service.
    pub fn new(catalog: CatalogStore, signer: ItemRefSigner, config: ServiceConfig) -> (r: Self)
        ensures
            r@.versions == catalog@,
            r@.sessions == Map::<Seq<char>, SeenView>::empty(),
            r@.submissions == Submissions::empty(),
            r@.matches.rooms == Map::<Seq<char>, crate::rounds::RoomView>::empty(),
            r@.ordinal == 0,
            r@.key == signer@,
            r@.seed == config.seed,
            r@.session == config.session,
            r@.blueprint == config.blueprint@,
            r@.exposure == config.exposure@,
            r@.session_idle_timeout_ms == config.session_idle_timeout_ms,
            r@.match_results_retention_ms == config.match_results_retention_ms,
            r@.match_lobby_idle_timeout_ms == config.match_lobby_idle_timeout_ms,
            r@.max_retained_submissions == config.max_retained_submissions,
    {
        HcrService {
            catalog,
            sessions: SessionRegistry::new(),
            signer,
            submissions: TextMap::new(),
            config,
            ordinal: 0,
            matches: MatchRegistry::new(),
        }
    }

    /// The catalog store.
    pub fn catalog(&self) -> (r: &CatalogStore)
        ensures
            r@ == self@.versions,
    {
        &self.catalog
    }

    /// List the latest version of every challenge.
    pub fn list_challenges(&self) -> (r: Vec<ChallengeSummary>)
        ensures
            is_menu(r@, self@.versions),
    {
        self.catalog.list()
    }

    /// Fetch a challenge, at a specific version or the latest.
    pub fn get_challenge(&self, challenge_id: &str, version: Option<u32>) -> (r: ServiceResult<
        &ChallengeDefinitionDto,
    >)
        ensures
            looks_up(self@.versions, challenge_id@, version, r),
    {
        self.catalog.get(challenge_id, version)
    }

    /// Decide what is to be done with a submission: one that was scored before
    /// is not scored again, and one for a challenge that does not exist fails.
    pub fn plan_submission(&self, request: &SubmissionCreate) -> (r: ServiceResult<SubmissionPlan<'_>>)
        ensures
            if self@.submissions.contains_key(request.submission_id@) {
                r matches Ok(SubmissionPlan::Stored(result)) && result
                    == self@.submissions[request.submission_id@]
            } else if self@.versions.contains_key((request.challenge_id@, request.challenge_version)) {
                r matches Ok(SubmissionPlan::Replay(dto)) && *dto == self@.versions[(
                    request.challenge_id@,
                    request.challenge_version,
                )]
            } else {
                r matches Err(error) && error.is_challenge_not_found(
                    request.challenge_id@,
                    Some(request.challenge_version),
                )
            },
    {
        match self.submissions.get(request.submission_id.as_str()) {
            Some(result) => {
                return Ok(SubmissionPlan::Stored(result.clone()));
            },
            None => {},
        }
        match self.catalog.get(request.challenge_id.as_str(), Some(request.challenge_version)) {
            Ok(dto) => Ok(SubmissionPlan::Replay(dto)),
            Err(error) => Err(error),
        }
    }

    /// Score a program, recording who submitted it.
    ///
    /// Idempotent on the submission's identity: a repeat returns the stored
    /// result rather than scoring again, whatever a replay says. `replayed` is
    /// what the authoritative run gave. The event is there for a result that was
    /// not stored before; the player stands in it and nowhere else.
    pub fn create_submission_for(
        &mut self,
        request: SubmissionCreate,
        player_id: Option<String>,
        replayed: ServiceResult<Replayed>,
        tick_ms: Real,
        now: u64,
    ) -> (r: ServiceResult<(SubmissionResult, Option<UsageEvent>)>)
        ensures
            scores(old(self)@, final(self)@, request, player_id, replayed, tick_ms, now, r),
    {
        match self.submissions.get(request.submission_id.as_str()) {
            Some(result) => {
                return Ok((result.clone(), None));
            },
            None => {},
        }
        match self.catalog.get(request.challenge_id.as_str(), Some(request.challenge_version)) {
            Ok(_) => {},
            Err(error) => {
                return Err(error);
            },
        }
        let replayed = match replayed {
            Ok(replayed) => replayed,
            Err(error) => {
                return Err(error);
            },
        };
        let mode = if request.cutter_grid {
            ProgrammingMode::CutterGrid
        } else {
            ProgrammingMode::Servo
        };
        let diverged_from_client = if request.cutter_grid {
            replayed.trajectory_diverged
        } else {
            diverged(request.client_preview.as_ref(), &replayed.outcome)
        };
        let outcome = replayed.outcome;
        let status = match outcome.terminal.reason {
            TerminalReason::Completed => SubmissionStatus::Completed,
            _ => SubmissionStatus::Error,
        };
        let result = SubmissionResult {
            submission_id: request.submission_id,
            challenge_id: request.challenge_id,
            challenge_version: request.challenge_version,
            status,
            programming_mode: mode,
            score: outcome.score,
            metrics: outcome.metrics,
            result_voxels_hash: outcome.result_voxels_hash,
            terminal: outcome.terminal,
            replay: ReplayInfo {
                engine_version: ENGINE_VERSION.to_owned(),
                tick_ms,
                simulated_ms: outcome.simulated_ms,
                diverged_from_client,
            },
            error: None,
        };
        self.store_submission(&result);
        let event = UsageEvent::from_submission(
            now,
            player_id,
            &result,
            request.match_id,
            request.session_id,
            mode,
        );
        Ok((result, Some(event)))
    }

    fn store_submission(&mut self, result: &SubmissionResult)
        ensures
            final(self)@ == (ServiceView {
                submissions: retaining(
                    old(self)@.submissions,
                    old(self)@.max_retained_submissions,
                    *result,
                ),
                ..old(self)@
            }),
    {
        if self.submissions.len() >= self.config.max_retained_submissions {
            self.submissions.clear();
        }
        self.submissions.insert(result.submission_id.clone(), result.clone());
    }

    /// Fetch a previously scored submission.
    pub fn get_submission(&self, submission_id: &str) -> (r: ServiceResult<&SubmissionResult>)
        ensures
            if self@.submissions.contains_key(submission_id@) {
                r matches Ok(result) && *result == self@.submissions[submission_id@]
            } else {
                r matches Err(error) && error.is_internal("no such submission"@)
            },
    {
        match self.submissions.get(submission_id) {
            Some(result) => Ok(result),
            None => Err(ServiceError::Internal("no such submission")),
        }
    }

    /// Number of retained submission results.
    pub fn retained_submissions(&self) -> (r: usize)
        ensures
            r == self@.submissions.len(),
            self@.submissions.dom().finite(),
    {
        self.submissions.len()
    }

    /// Plan an adaptive session over the items playable in its mode. Without any
    /// there is none. [`Self::open_session`] opens it once the engine has built
    /// it over the plan's bank.
    pub fn start_session(&mut self, request: &SessionStart) -> (r: ServiceResult<SessionPlan>)
        ensures
            match r {
                Ok(plan) => {
                    &&& plan.session_id@ == session_name(old(self)@.seed, old(self)@.ordinal)
                    &&& plan.mode == request.programming_mode
                    &&& plan.initial_theta == match request.initial_theta {
                        Some(theta) => theta,
                        None => Real { bits: 0 },
                    }
                    &&& plan.config == old(self)@.session
                    &&& plan.seed == (old(self)@.seed + old(self)@.ordinal) % 0x1_0000_0000_0000_0000
                    &&& plan.bank.wf()
                    &&& is_pool(plan.bank@.catalog, old(self)@.versions, request.programming_mode)
                    &&& plan.bank@.catalog.len() > 0
                    &&& plan.bank@ == (BankView {
                        blueprint: old(self)@.blueprint,
                        exposure: old(self)@.exposure,
                        ..BankView::fresh(plan.bank@.catalog, plan.seed)
                    })
                    &&& final(self)@ == (ServiceView {
                        ordinal: ((old(self)@.ordinal + 1) % 0x1_0000_0000_0000_0000) as u64,
                        ..old(self)@
                    })
                },
                Err(error) => error is BankExhausted && final(self)@ == old(self)@ && is_pool(
                    Seq::<ItemView>::empty(),
                    old(self)@.versions,
                    request.programming_mode,
                ),
            },
    {
        let snapshot = self.catalog.snapshot_for(request.programming_mode);
        if snapshot.is_empty() {
            assert(snapshot@ =~= Seq::<ItemView>::empty());
            return Err(ServiceError::BankExhausted);
        }
        let ordinal: u64 = self.ordinal;
        self.ordinal = ordinal.wrapping_add(1);
        let spread: u64 = ordinal.wrapping_mul(0x9e37_79b9_7f4a_7c15);
        let mut session_id: String = "s-".to_owned();
        push_hex(&mut session_id, self.config.seed ^ spread, 16);
        let seed: u64 = self.config.seed.wrapping_add(ordinal);
        let bank = HcrDynamicBank::new(snapshot, seed).with_blueprint(self.config.blueprint.clone())
            .with_exposure(self.config.exposure.clone());
        Ok(
            SessionPlan {
                session_id,
                mode: request.programming_mode,
                initial_theta: match request.initial_theta {
                    Some(theta) => theta,
                    None => Real::zero(),
                },
                config: self.config.session,
                seed,
                bank,
            },
        )
    }

    /// Open a planned session, and show its state.
    pub fn open_session(
        &mut self,
        session_id: String,
        mode: ProgrammingMode,
        session: arona::session::Session,
        now: u64,
    ) -> (r: ServiceResult<SessionSnapshot>)
        ensures
            ({
                let actor = ActorView::opened(session_id@, mode, session, old(self)@.key);
                shows_session(actor, r) && final(self)@ == (ServiceView {
                    sessions: old(self)@.sessions.insert(
                        session_id@,
                        SeenView { actor, last_seen: now },
                    ),
                    ..old(self)@
                })
            }),
    {
        let name = session_id.clone();
        let actor = Actor::new(session_id, mode, session, self.signer.clone());
        let r = actor.snapshot();
        self.sessions.create(name.as_str(), actor, now);
        r
    }

    /// Current state of a session.
    pub fn session_snapshot(&mut self, session_id: &str, now: u64) -> (r: ServiceResult<
        SessionSnapshot,
    >)
        ensures
            if old(self)@.sessions.contains_key(session_id@) {
                shows_session(old(self)@.sessions[session_id@].actor, r) && final(self)@
                    == (ServiceView {
                    sessions: seen_at(old(self)@.sessions, session_id@, now),
                    ..old(self)@
                })
            } else {
                r matches Err(error) && error.is_session_not_found(session_id@) && final(self)@
                    == old(self)@
            },
    {
        self.sessions.snapshot(session_id, now)
    }

    /// Ask for the next item of a session.
    pub fn next_item(&mut self, session_id: &str, now: u64) -> (r: ServiceResult<Choice>)
        ensures
            if old(self)@.sessions.contains_key(session_id@) {
                final(self)@.sessions.contains_key(session_id@) && {
                    let after = final(self)@.sessions[session_id@].actor;
                    chooses(old(self)@.sessions[session_id@].actor, after, r) && final(self)@
                        == (ServiceView {
                        sessions: old(self)@.sessions.insert(
                            session_id@,
                            SeenView { actor: after, last_seen: now },
                        ),
                        ..old(self)@
                    })
                }
            } else {
                r matches Err(error) && error.is_session_not_found(session_id@) && final(self)@
                    == old(self)@
            },
    {
        self.sessions.choose_item(session_id, now)
    }

    /// What the reference to a selected item asserts.
    pub fn claims_for(
        &self,
        session_id: &str,
        index: usize,
        served: Option<&ServedItem>,
        now: u64,
    ) -> (r: ServiceResult<ItemRefClaims>)
        ensures
            if !self@.sessions.contains_key(session_id@) {
                r matches Err(error) && error.is_session_not_found(session_id@)
            } else {
                match served {
                    None => r matches Err(error) && error.is_internal(
                        "serve log missing the selected item"@,
                    ),
                    Some(item) => r matches Ok(claims) && claims.session_id@
                        == self@.sessions[session_id@].actor.session_id && claims.bank_index == index
                        && claims.item_id == item.id && claims.challenge_version == item.version
                        && claims.issued_at == now,
                }
            },
    {
        match self.sessions.get(session_id) {
            Ok(actor) => actor.claims_for(index, served, now),
            Err(error) => Err(error),
        }
    }

    /// Issue a selected item under its encoded claims.
    pub fn issue_item(
        &mut self,
        session_id: &str,
        claims: ItemRefClaims,
        payload: &[u8],
        expected_remaining: Option<u32>,
    ) -> (r: ServiceResult<crate::api::NextItem>)
        ensures
            if old(self)@.sessions.contains_key(session_id@) {
                let before = old(self)@.sessions[session_id@];
                r matches Ok(item) && item.item_ref@ == reference(before.actor.key, payload@)
                    && item.challenge_id == claims.item_id && item.challenge_version
                    == claims.challenge_version && item.expected_remaining == expected_remaining
                    && final(self)@ == (ServiceView {
                    sessions: old(self)@.sessions.insert(
                        session_id@,
                        SeenView {
                            actor: ActorView { awaiting: Some((claims, item)), ..before.actor },
                            ..before
                        },
                    ),
                    ..old(self)@
                })
            } else {
                r matches Err(error) && error.is_session_not_found(session_id@) && final(self)@
                    == old(self)@
            },
    {
        self.sessions.issue(session_id, claims, payload, expected_remaining)
    }

    /// The signer of item references.
    pub fn signer(&self) -> (r: &ItemRefSigner)
        ensures
            r@ == self@.key,
    {
        &self.signer
    }

    /// The scored submission that a response is about, unless it is turned down.
    /// `decoded` is what the payload of the reference spells.
    pub fn scored_response(&self, request: &SessionRespond, decoded: &Option<ItemRefClaims>) -> (r:
        ServiceResult<&SubmissionResult>)
        ensures
            match self@.respond_refusal(*request, *decoded) {
                Some(refusal) => r matches Err(error) && reports_respond(
                    self@,
                    *request,
                    error,
                    refusal,
                ),
                None => r matches Ok(result) && *result == self@.submissions[request.submission_id@],
            },
    {
        match self.signer.verify(request.item_ref.as_str()) {
            Ok(_) => {},
            Err(error) => {
                return Err(error);
            },
        }
        let claims = match read_claims(decoded) {
            Ok(claims) => claims,
            Err(error) => {
                return Err(error);
            },
        };
        if !same(claims.session_id.as_str(), request.session_id.as_str()) {
            return Err(ServiceError::ItemRefInvalid("issued to another session"));
        }
        let submission = match self.submissions.get(request.submission_id.as_str()) {
            Some(submission) => submission,
            None => {
                return Err(
                    ServiceError::ItemRefInvalid("the referenced submission has not been scored"),
                );
            },
        };
        if !same(submission.challenge_id.as_str(), claims.item_id.as_str())
            || submission.challenge_version != claims.challenge_version {
            return Err(ServiceError::ItemRefInvalid("the submission scored a different challenge"));
        }
        let actor = match self.sessions.get(request.session_id.as_str()) {
            Ok(actor) => actor,
            Err(error) => {
                return Err(error);
            },
        };
        if submission.programming_mode != actor.mode() {
            return Err(
                ServiceError::ItemRefInvalid(
                    "the submission was written in another programming mode",
                ),
            );
        }
        Ok(submission)
    }

    /// Report a scored submission against the item that awaits a response. Its
    /// reference has to verify, and its score is the stored one; `decoded` is what the
    /// payload of the reference spells.
    pub fn respond(
        &mut self,
        request: &SessionRespond,
        decoded: &Option<ItemRefClaims>,
        now: u64,
    ) -> (r: ServiceResult<(ResponseOutcome, UsageEvent)>)
        ensures
            answers(old(self)@, final(self)@, *request, *decoded, now, r),
    {
        let (mode, raw_score) = match self.scored_response(request, decoded) {
            Ok(submission) => (
                submission.programming_mode,
                from_percent(submission.score.final_score),
            ),
            Err(error) => {
                return Err(error);
            },
        };
        let claims = match read_claims(decoded) {
            Ok(claims) => claims,
            Err(error) => {
                return Err(error);
            },
        };
        match self.sessions.respond(
            request.session_id.as_str(),
            claims,
            request.submission_id.as_str(),
            raw_score,
            now,
        ) {
            Ok(outcome) => {
                let event = UsageEvent::from_response(
                    now,
                    request.session_id.as_str(),
                    claims.item_id.as_str(),
                    mode,
                    &outcome,
                );
                Ok((outcome, event))
            },
            Err(error) => Err(error),
        }
    }

    /// Close a session and issue its result.
    pub fn finalize_session(&mut self, session_id: &str, elapsed_ms: u64, now: u64) -> (r:
        ServiceResult<SessionResultDto>)
        ensures
            if old(self)@.sessions.contains_key(session_id@) {
                let before = old(self)@.sessions[session_id@].actor;
                if before.engine is Some {
                    final(self)@ == (ServiceView {
                        sessions: old(self)@.sessions.remove(session_id@),
                        ..old(self)@
                    }) && exists|after: ActorView| #[trigger] closes(before, after, elapsed_ms, r)
                } else {
                    r matches Err(error) && error.is_internal("session already finalized"@)
                        && final(self)@ == (ServiceView {
                        sessions: seen_at(old(self)@.sessions, session_id@, now),
                        ..old(self)@
                    })
                }
            } else {
                r matches Err(error) && error.is_session_not_found(session_id@) && final(self)@
                    == old(self)@
            },
    {
        self.sessions.finalize(session_id, elapsed_ms, now)
    }

    /// Live session count.
    pub fn live_sessions(&self) -> (r: usize)
        ensures
            r == self@.sessions.len(),
    {
        self.sessions.len()
    }

    /// Drop everything nobody is using: idle sessions and finished rounds.
    /// Returns the sessions and rounds that were dropped.
    pub fn evict_idle(&mut self, now: u64) -> (r: (Vec<String>, Vec<String>))
        ensures
            forall|id: Seq<char>| #![trigger old(self)@.sessions.contains_key(id)]
                stale_among(r.0@, id) <==> old(self)@.stale_sessions(now).contains(id),
            named_once(r.0@),
            evicts(
                old(self)@.matches,
                final(self)@.matches,
                now,
                old(self)@.match_results_retention_ms,
                old(self)@.match_lobby_idle_timeout_ms,
                r.1@,
            ),
            final(self)@ == (ServiceView {
                sessions: old(self)@.sessions.remove_keys(old(self)@.stale_sessions(now)),
                matches: final(self)@.matches,
                ..old(self)@
            }),
            final(self)@.matches.timed(),
    {
        let sessions = self.evict_idle_sessions(now);
        let rounds = self.matches.evict_idle(
            now,
            self.config.match_results_retention_ms,
            self.config.match_lobby_idle_timeout_ms,
        );
        (sessions, rounds)
    }

    /// Drop sessions idle beyond the configured timeout.
    pub fn evict_idle_sessions(&mut self, now: u64) -> (r: Vec<String>)
        ensures
            forall|id: Seq<char>| #![trigger old(self)@.sessions.contains_key(id)]
                stale_among(r@, id) <==> old(self)@.stale_sessions(now).contains(id),
            named_once(r@),
            final(self)@ == (ServiceView {
                sessions: old(self)@.sessions.remove_keys(old(self)@.stale_sessions(now)),
                ..old(self)@
            }),
    {
        let ghost before = self.sessions@;
        let r = self.sessions.evict_idle(now, self.config.session_idle_timeout_ms);
        assert forall|id: Seq<char>| #![trigger old(self)@.sessions.contains_key(id)] stale_among(
            r@,
            id,
        ) <==> old(self)@.stale_sessions(now).contains(id) by {
            assert(before.contains_key(id) == old(self)@.sessions.contains_key(id));
        }
        assert(old(self)@.stale_sessions(now) =~= Set::new(
            |id: Seq<char>|
                old(self)@.sessions.contains_key(id) && is_stale(
                    old(self)@.sessions[id],
                    now,
                    old(self)@.session_idle_timeout_ms,
                ),
        ));
        assert(self@.sessions =~= old(self)@.sessions.remove_keys(old(self)@.stale_sessions(now)));
        r
    }

    /// Answer a clock-synchronisation probe.
    pub fn time_sync(&self, client_sent_at: u64, now: u64) -> (r: TimeSync)
        ensures
            r == (TimeSync { client_sent_at, server_time: now }),
    {
        TimeSync { client_sent_at, server_time: now }
    }

    /// Open a round.
    ///
    /// The challenge is chosen now but not revealed until the round starts. A
    /// pinned one must exist and be playable in the round's mode, so that a
    /// lobby nobody could submit into is refused at creation; otherwise the first
    /// playable one of the menu is taken.
    pub fn create_match(&mut self, config: MatchConfig, now: u64) -> (r: ServiceResult<MatchState>)
        ensures
            opens_round(old(self)@, final(self)@, config, now, r),
    {
        let challenge = match &config.challenge_ref {
            Some(pinned) => {
                let dto = match self.catalog.get(pinned.challenge_id.as_str(), Some(pinned.version)) {
                    Ok(dto) => dto,
                    Err(error) => {
                        return Err(error);
                    },
                };
                if !dto.meta.supports(config.programming_mode) {
                    return Err(
                        ServiceError::ProgramInvalid {
                            message: "The pinned challenge does not support the round's programming mode.".to_owned(),
                            field: None,
                        },
                    );
                }
                pinned.clone()
            },
            None => {
                match self.catalog.pick_for_match(config.programming_mode) {
                    Ok((challenge_id, version)) => MatchChallengeRef { challenge_id, version },
                    Err(error) => {
                        return Err(error);
                    },
                }
            },
        };
        let ghost chosen = challenge;
        let r = self.matches.create(config, challenge, now);
        assert(creates(old(self)@.matches, self@.matches, config, chosen, now, r));
        r
    }

    /// Join a round's lobby.
    pub fn join_match(&mut self, match_id: &str, player_id: &str, display_name: &str, now: u64) -> (r:
        ServiceResult<MatchState>)
        ensures
            joins(
                old(self)@.matches,
                final(self)@.matches,
                match_id@,
                player_id@,
                display_name@,
                now,
                r,
            ),
            final(self)@ == (ServiceView { matches: final(self)@.matches, ..old(self)@ }),
            old(self)@.matches.timed(),
            final(self)@.matches.timed(),
    {
        self.matches.join(match_id, player_id, display_name, now)
    }

    /// Whether a round's deadline can be set.
    pub fn can_start_match(&self, match_id: &str, now: u64) -> (r: bool)
        ensures
            r == (self@.matches.rooms.contains_key(match_id@) ==> now
                + self@.matches.rooms[match_id@].config.duration_ms <= u64::MAX),
    {
        self.matches.can_start(match_id, now)
    }

    /// Start a round: fix the roster, set the deadline, reveal the challenge.
    pub fn start_match(&mut self, match_id: &str, now: u64) -> (r: ServiceResult<MatchState>)
        requires
            old(self)@.matches.rooms.contains_key(match_id@) ==> now
                + old(self)@.matches.rooms[match_id@].config.duration_ms <= u64::MAX,
        ensures
            starts(old(self)@.matches, final(self)@.matches, match_id@, now, r),
            final(self)@ == (ServiceView { matches: final(self)@.matches, ..old(self)@ }),
            old(self)@.matches.timed(),
            final(self)@.matches.timed(),
    {
        self.matches.start(match_id, now)
    }

    /// Current round state.
    pub fn match_state(&mut self, match_id: &str, now: u64) -> (r: ServiceResult<MatchState>)
        ensures
            shows_state(old(self)@.matches, final(self)@.matches, match_id@, now, r),
            final(self)@ == (ServiceView { matches: final(self)@.matches, ..old(self)@ }),
            old(self)@.matches.timed(),
            final(self)@.matches.timed(),
    {
        self.matches.state(match_id, now)
    }

    /// The challenge a round is running, once revealed.
    pub fn match_challenge(&mut self, match_id: &str, now: u64) -> (r: ServiceResult<
        &ChallengeDefinitionDto,
    >)
        ensures
            exists|revealed: ServiceResult<MatchChallengeRef>|
                {
                    &&& #[trigger] reveals(
                        old(self)@.matches,
                        final(self)@.matches,
                        match_id@,
                        now,
                        revealed,
                    )
                    &&& match revealed {
                        Ok(challenge) => looks_up(
                            old(self)@.versions,
                            challenge.challenge_id@,
                            Some(challenge.version),
                            r,
                        ),
                        Err(error) => r == Err::<&ChallengeDefinitionDto, ServiceError>(error),
                    }
                },
            final(self)@ == (ServiceView { matches: final(self)@.matches, ..old(self)@ }),
            old(self)@.matches.timed(),
            final(self)@.matches.timed(),
    {
        let revealed = self.matches.challenge_ref(match_id, now);
        assert(reveals(old(self)@.matches, self@.matches, match_id@, now, revealed));
        match revealed {
            Ok(challenge) => self.catalog.get(challenge.challenge_id.as_str(), Some(challenge.version)),
            Err(error) => Err(error),
        }
    }

    /// Score a program and enter it into a round.
    ///
    /// The reply carries no score. Acceptance is decided by server receive time
    /// against the deadline, so a client clock cannot buy extra seconds.
    pub fn submit_to_match(
        &mut self,
        match_id: &str,
        player_id: &str,
        request: SubmissionCreate,
        replayed: ServiceResult<Replayed>,
        tick_ms: Real,
        now: u64,
    ) -> (r: ServiceResult<(MatchSubmissionAck, Option<UsageEvent>)>)
        ensures
            exists|scored: ServiceResult<(SubmissionResult, Option<UsageEvent>)>, player: String, middle: ServiceView|
                {
                    &&& player@ == player_id@
                    &&& #[trigger] scores(
                        old(self)@,
                        middle,
                        request,
                        Some(player),
                        replayed,
                        tick_ms,
                        now,
                        scored,
                    )
                    &&& match scored {
                        Err(error) => r == Err::<(MatchSubmissionAck, Option<UsageEvent>), ServiceError>(
                            error,
                        ) && final(self)@ == middle,
                        Ok((result, event)) => submits(
                            middle.matches,
                            final(self)@.matches,
                            match_id@,
                            player_id@,
                            result,
                            now,
                            match r {
                                Ok(answer) => Ok(answer.0),
                                Err(error) => Err(error),
                            },
                        ) && (r matches Ok(answer) ==> answer.1 == event) && final(self)@
                            == (ServiceView { matches: final(self)@.matches, ..middle }),
                    }
                },
            r is Ok ==> old(self)@.matches.timed() && final(self)@.matches.timed(),
    {
        let player = player_id.to_owned();
        let scored = self.create_submission_for(request, Some(player), replayed, tick_ms, now);
        let ghost middle = self@;
        assert(scores(
            old(self)@,
            middle,
            request,
            Some(player),
            replayed,
            tick_ms,
            now,
            scored,
        ));
        let (result, event) = match scored {
            Ok(scored) => scored,
            Err(error) => {
                return Err(error);
            },
        };
        match self.matches.submit(match_id, player_id, &result, now) {
            Ok(ack) => Ok((ack, event)),
            Err(error) => Err(error),
        }
    }

    /// Final standings, once the round has closed.
    pub fn match_results(&mut self, match_id: &str, now: u64) -> (r: ServiceResult<
        (MatchResults, UsageEvent),
    >)
        ensures
            publishes(
                old(self)@.matches,
                final(self)@.matches,
                match_id@,
                now,
                match r {
                    Ok(answer) => Ok(answer.0),
                    Err(error) => Err(error),
                },
            ),
            r matches Ok(answer) ==> (answer.1 matches UsageEvent::MatchResults {
                ts,
                match_id: round,
                challenge_id,
                challenge_version,
                mode,
                players,
                submitted,
                top_completion,
            } && ts == now && round == answer.0.match_id && challenge_id == answer.0.challenge_id
                && challenge_version == answer.0.challenge_version && mode == answer.0.programming_mode
                && players == answer.0.rows@.len() && submitted == crate::usage::submitted_rows(
                answer.0.rows@,
            ) && top_completion == crate::usage::best_completion(answer.0.rows@)),
            final(self)@ == (ServiceView { matches: final(self)@.matches, ..old(self)@ }),
            old(self)@.matches.timed(),
            final(self)@.matches.timed(),
    {
        match self.matches.results(match_id, now) {
            Ok(results) => {
                let event = UsageEvent::from_results(now, &results);
                Ok((results, event))
            },
            Err(error) => Err(error),
        }
    }

    /// Abandon a round.
    pub fn cancel_match(&mut self, match_id: &str, now: u64) -> (r: ServiceResult<MatchState>)
        ensures
            cancels(old(self)@.matches, final(self)@.matches, match_id@, now, r),
            final(self)@ == (ServiceView { matches: final(self)@.matches, ..old(self)@ }),
            old(self)@.matches.timed(),
            final(self)@.matches.timed(),
    {
        self.matches.cancel(match_id, now)
    }

    /// Live round count.
    pub fn live_rounds(&self) -> (r: usize)
        ensures
            r == self@.matches.rooms.len(),
    {
        self.matches.len()
    }
}

/// What scoring a submission does.
pub open spec fn scores(
    before: ServiceView,
    after: ServiceView,
    request: SubmissionCreate,
    player_id: Option<String>,
    replayed: ServiceResult<Replayed>,
    tick_ms: Real,
    now: u64,
    r: ServiceResult<(SubmissionResult, Option<UsageEvent>)>,
) -> bool {
    if before.submissions.contains_key(request.submission_id@) {
        &&& r matches Ok((result, event)) && result == before.submissions[request.submission_id@]
            && event is None
        &&& after == before
    } else if !before.versions.contains_key((request.challenge_id@, request.challenge_version)) {
        &&& r matches Err(error) && error.is_challenge_not_found(
            request.challenge_id@,
            Some(request.challenge_version),
        )
        &&& after == before
    } else {
        match replayed {
            Err(error) => r == Err::<(SubmissionResult, Option<UsageEvent>), ServiceError>(error) && after
                == before,
            Ok(replayed) => r matches Ok((result, event)) && {
                &&& is_scored(result, request, replayed, tick_ms)
                &&& event == Some(
                    UsageEvent::Submission {
                        ts: now,
                        player_id,
                        challenge_id: result.challenge_id,
                        challenge_version: result.challenge_version,
                        match_id: request.match_id,
                        session_id: request.session_id,
                        mode: mode_of(request),
                        terminal: result.terminal.reason,
                        completion_score: result.score.completion_score,
                        final_score: result.score.final_score,
                        blocks: result.metrics.source_block_count,
                        commands: result.metrics.executed_command_count,
                        duration_ms: result.metrics.estimated_duration_ms,
                    },
                )
                &&& after == (ServiceView {
                    submissions: retaining(
                        before.submissions,
                        before.max_retained_submissions,
                        result,
                    ),
                    ..before
                })
            },
        }
    }
}

/// What opening a round does.
pub open spec fn opens_round(
    before: ServiceView,
    after: ServiceView,
    config: MatchConfig,
    now: u64,
    r: ServiceResult<MatchState>,
) -> bool {
    let mode = config.programming_mode;
    match config.challenge_ref {
        Some(pinned) => {
            let key = (pinned.challenge_id@, pinned.version);
            if !before.versions.contains_key(key) {
                &&& r matches Err(error) && error.is_challenge_not_found(
                    pinned.challenge_id@,
                    Some(pinned.version),
                )
                &&& after == before
            } else if !before.versions[key].meta@.programming_modes.contains(mode) {
                &&& r matches Err(error) && error.wire_code()
                    == crate::wire::HcrErrorCode::ProgramInvalid && error.sentence()
                    == "The pinned challenge does not support the round's programming mode."@
                &&& after == before
            } else {
                &&& creates(before.matches, after.matches, config, pinned, now, r)
                &&& after == (ServiceView { matches: after.matches, ..before })
            }
        },
        None => {
            ||| {
                &&& r matches Err(error) && error is BankExhausted
                &&& forall|id: Seq<char>| !(#[trigger] playable(before.versions, id, mode))
                &&& after == before
            }
            ||| exists|chosen: MatchChallengeRef|
                {
                    &&& playable(before.versions, chosen.challenge_id@, mode)
                    &&& is_latest(before.versions, chosen.challenge_id@, chosen.version)
                    &&& forall|other: Seq<char>| #[trigger]
                        playable(before.versions, other, mode) && other != chosen.challenge_id@
                            ==> menu_before(before.versions, chosen.challenge_id@, other)
                    &&& #[trigger] creates(before.matches, after.matches, config, chosen, now, r)
                    &&& after == (ServiceView { matches: after.matches, ..before })
                }
        },
    }
}

/// A response that is taken rests on a reference that verifies under the service's
/// key and was issued to the session, on a stored submission of the item and version
/// it names, and on that submission's score.
pub proof fn law_a_response_rests_on_its_reference_and_the_stored_score(
    before: ServiceView,
    after: ServiceView,
    request: SessionRespond,
    decoded: Option<ItemRefClaims>,
    now: u64,
    answer: (ResponseOutcome, UsageEvent),
)
    requires
        answers(before, after, request, decoded, now, Ok(answer)),
    ensures
        is_reference(before.key, request.item_ref@),
        decoded matches Some(claims) && claims.session_id@ == request.session_id@ && ({
            let submission = before.submissions[request.submission_id@];
            &&& before.submissions.contains_key(request.submission_id@)
            &&& submission.challenge_id@ == claims.item_id@
            &&& submission.challenge_version == claims.challenge_version
            &&& answer.0.raw_score == fraction_of_hundred(submission.score.final_score)
        }),
{
}

/// A response whose reference does not verify, or is not of this session, whose
/// submission is not stored, or scored another challenge, is an invalid reference,
/// and changes nothing.
pub proof fn law_an_unfounded_response_changes_nothing(
    before: ServiceView,
    after: ServiceView,
    request: SessionRespond,
    decoded: Option<ItemRefClaims>,
    now: u64,
    r: ServiceResult<(ResponseOutcome, UsageEvent)>,
)
    requires
        answers(before, after, request, decoded, now, r),
        !is_reference(before.key, request.item_ref@) || decoded is None || decoded->0.session_id@
            != request.session_id@ || !before.submissions.contains_key(request.submission_id@) || (
        before.submissions[request.submission_id@].challenge_id@ != (decoded->0).item_id@) || (
        before.submissions[request.submission_id@].challenge_version != (
        decoded->0).challenge_version),
    ensures
        r matches Err(error) && error is ItemRefInvalid,
        after == before,
{
    if !is_reference(before.key, request.item_ref@) {
        law_a_refusal_is_an_invalid_reference(before.key, request.item_ref@, r->Err_0);
    }
}

/// Scoring is idempotent: once a submission was scored, submitting it again gives
/// the same result and changes nothing, whatever the replay says then.
pub proof fn law_scoring_is_idempotent(
    before: ServiceView,
    after: ServiceView,
    later: ServiceView,
    request: SubmissionCreate,
    player_id: Option<String>,
    replayed: ServiceResult<Replayed>,
    tick_ms: Real,
    now: u64,
    result: SubmissionResult,
    event: Option<UsageEvent>,
    again: SubmissionCreate,
    again_player: Option<String>,
    again_replayed: ServiceResult<Replayed>,
    again_ms: u64,
    r: ServiceResult<(SubmissionResult, Option<UsageEvent>)>,
)
    requires
        scores(before, after, request, player_id, replayed, tick_ms, now, Ok((result, event))),
        again.submission_id@ == request.submission_id@,
        scores(after, later, again, again_player, again_replayed, tick_ms, again_ms, r),
    ensures
        r matches Ok((same, none)) && same == result && none is None,
        later == after,
{
    if !before.submissions.contains_key(request.submission_id@) {
        assert(result.submission_id == request.submission_id);
    }
}

/// The store of scored submissions never outgrows its cap, but for the one
/// submission that a store without any room still holds.
pub proof fn law_submission_store_stays_bounded(
    submissions: Submissions,
    cap: nat,
    result: SubmissionResult,
)
    requires
        submissions.dom().finite(),
        submissions.len() <= cap || submissions.len() <= 1,
    ensures
        retaining(submissions, cap, result).len() <= cap || retaining(submissions, cap, result).len()
            <= 1,
        retaining(submissions, cap, result).contains_key(result.submission_id@),
{
    let id = result.submission_id@;
    assert(Submissions::empty().insert(id, result).dom() =~= Set::empty().insert(id));
    assert(submissions.insert(id, result).dom() =~= submissions.dom().insert(id));
}

/// A result that is handed out for a fresh submission is completed exactly if its
/// run ended by completing, and never carries an error.
pub proof fn law_status_follows_the_run(
    result: SubmissionResult,
    request: SubmissionCreate,
    replayed: Replayed,
    tick_ms: Real,
)
    requires
        is_scored(result, request, replayed, tick_ms),
    ensures
        (result.status == SubmissionStatus::Completed) == (result.terminal.reason is Completed),
        result.error is None,
{
}


/// An answer on its way to a session is taken there exactly when it is founded: the reference
/// verifies and can be read, it was issued to the session that is asked, and the submission named is
/// stored, scored the item and version of the reference, and was written in the session's mode.
pub proof fn law_a_founded_response_is_heard(
    service: ServiceView,
    request: SessionRespond,
    claims: ItemRefClaims,
)
    ensures
        service.respond_refusal(request, Some(claims)) is None <==> {
            &&& is_reference(service.key, request.item_ref@)
            &&& claims.session_id@ == request.session_id@
            &&& service.submissions.contains_key(request.submission_id@)
            &&& service.submissions[request.submission_id@].challenge_id@ == claims.item_id@
            &&& service.submissions[request.submission_id@].challenge_version == claims.challenge_version
            &&& service.sessions.contains_key(request.session_id@)
            &&& service.submissions[request.submission_id@].programming_mode
                == service.sessions[request.session_id@].actor.mode
        },
        service.respond_refusal(request, None) is Some,
        service.respond_refusal(request, Some(claims)) == Some(RespondRefusal::NoSession)
            ==> !service.sessions.contains_key(request.session_id@),
        service.respond_refusal(request, Some(claims)) == Some(RespondRefusal::NotScored)
            ==> !service.submissions.contains_key(request.submission_id@),
        service.respond_refusal(request, Some(claims)) == Some(RespondRefusal::OtherMode)
            ==> service.submissions[request.submission_id@].programming_mode
            != service.sessions[request.session_id@].actor.mode,
{
}

/// The score that a session takes for a submission is its final score as a share of a hundred: a
/// hundred points are all of it, none are nothing, and more points never count for less.
pub proof fn law_points_are_a_share_of_a_hundred(
    service: ServiceView,
    request: SessionRespond,
    other: ServiceView,
    other_request: SessionRespond,
)
    requires
        service.submissions[request.submission_id@].score.final_score.at_most(
            other.submissions[other_request.submission_id@].score.final_score,
        ),
        service.submissions[request.submission_id@].score.final_score.finite(),
        other.submissions[other_request.submission_id@].score.final_score.finite(),
        !service.submissions[request.submission_id@].score.final_score.is_negative(),
        !other.submissions[other_request.submission_id@].score.final_score.is_negative(),
    ensures
        service.response_score(request).at_most(other.response_score(other_request)),
        service.submissions[request.submission_id@].score.final_score.bits == 0
            ==> service.response_score(request).equals(Real { bits: 0 }),
        service.submissions[request.submission_id@].score.final_score.bits == 0x4059_0000_0000_0000
            ==> service.response_score(request).bits == 0x3ff0_0000_0000_0000,
{
    crate::rounding::law_more_percent_are_no_smaller_share(
        service.submissions[request.submission_id@].score.final_score,
        other.submissions[other_request.submission_id@].score.final_score,
    );
}

/// A fresh result tells what was handed in and what the replay found: identifier, challenge, version
/// and mode are those of the request; score, metrics, the hash of what is left and the end of the
/// run are those of the replay; and it is marked as diverged exactly when a preview was sent along
/// that claims another hash, or, in the grid mode, when the trajectories differ.
pub proof fn law_a_result_tells_its_replay(
    result: SubmissionResult,
    request: SubmissionCreate,
    replayed: Replayed,
    tick_ms: Real,
)
    requires
        is_scored(result, request, replayed, tick_ms),
    ensures
        result.submission_id == request.submission_id,
        result.challenge_id == request.challenge_id,
        result.challenge_version == request.challenge_version,
        request.cutter_grid <==> result.programming_mode is CutterGrid,
        !request.cutter_grid <==> result.programming_mode is Servo,
        result.score == replayed.outcome.score,
        result.metrics == replayed.outcome.metrics,
        result.result_voxels_hash == replayed.outcome.result_voxels_hash,
        result.terminal == replayed.outcome.terminal,
        result.replay.simulated_ms == replayed.outcome.simulated_ms,
        result.replay.tick_ms == tick_ms,
        request.cutter_grid ==> result.replay.diverged_from_client == replayed.trajectory_diverged,
        !request.cutter_grid && request.client_preview is None ==> !result.replay.diverged_from_client,
        !request.cutter_grid && request.client_preview is Some ==> (result.replay.diverged_from_client
            <==> request.client_preview->0.result_voxels_hash@
            != replayed.outcome.result_voxels_hash@),
{
}

/// Below its cap the store forgets nothing: every submission that was there is still there as it
/// was, and the new one is stored as it was scored.
pub proof fn law_scored_submissions_are_kept(
    submissions: Submissions,
    cap: nat,
    result: SubmissionResult,
    id: Seq<char>,
)
    ensures
        retaining(submissions, cap, result).contains_key(result.submission_id@),
        retaining(submissions, cap, result)[result.submission_id@] == result,
        submissions.len() < cap && submissions.contains_key(id) && id != result.submission_id@
            ==> retaining(submissions, cap, result).contains_key(id) && retaining(
            submissions,
            cap,
            result,
        )[id] == submissions[id],
{
}

/// What is on record of a fresh submission is what was handed out: the same scores, the same end of
/// the run, the round and the session it was sent for, and the player who sent it.
pub proof fn law_the_record_tells_the_result(
    before: ServiceView,
    after: ServiceView,
    request: SubmissionCreate,
    player_id: Option<String>,
    replayed: ServiceResult<Replayed>,
    tick_ms: Real,
    now: u64,
    result: SubmissionResult,
    event: Option<UsageEvent>,
)
    requires
        scores(before, after, request, player_id, replayed, tick_ms, now, Ok((result, event))),
        !before.submissions.contains_key(request.submission_id@),
    ensures
        after.submissions.contains_key(request.submission_id@),
        after.submissions[request.submission_id@] == result,
        event matches Some(
            UsageEvent::Submission {
                ts,
                player_id: who,
                challenge_id,
                challenge_version,
                match_id,
                session_id,
                mode,
                terminal,
                completion_score,
                final_score,
                blocks,
                commands,
                duration_ms,
            },
        ) && ts == now && who == player_id && challenge_id == request.challenge_id && challenge_version
            == request.challenge_version && match_id == request.match_id && session_id
            == request.session_id && mode == result.programming_mode && terminal
            == result.terminal.reason && completion_score == result.score.completion_score
            && final_score == result.score.final_score && blocks == result.metrics.source_block_count
            && commands == result.metrics.executed_command_count && duration_ms
            == result.metrics.estimated_duration_ms,
{
}

/// A round plays the challenge that was pinned, in the pinned version, or, where none was pinned, one
/// that is live and written for the round's mode, in its latest version; and a challenge that does
/// not support the mode is never played.
pub proof fn law_a_round_plays_a_fitting_challenge(
    before: ServiceView,
    after: ServiceView,
    config: MatchConfig,
    now: u64,
    state: MatchState,
)
    requires
        opens_round(before, after, config, now, Ok(state)),
    ensures
        ({
            let room = after.matches.rooms[state@.match_id];
            &&& after.matches.rooms.contains_key(state@.match_id)
            &&& !before.matches.rooms.contains_key(state@.match_id)
            &&& room.phase is Lobby
            &&& room.config == config
            &&& room.seats == Map::<Seq<char>, crate::rounds::SeatView>::empty()
            &&& before.versions.contains_key((room.challenge.challenge_id@, room.challenge.version))
            &&& before.versions[(room.challenge.challenge_id@, room.challenge.version)].meta@
                .programming_modes.contains(config.programming_mode)
            &&& config.challenge_ref matches Some(pinned) ==> room.challenge == pinned
            &&& config.challenge_ref is None ==> before.versions[(
                room.challenge.challenge_id@,
                room.challenge.version,
            )].meta.calibration.live()
        }),
{
    if config.challenge_ref is None {
        let chosen = choose|chosen: MatchChallengeRef|
            {
                &&& playable(before.versions, chosen.challenge_id@, config.programming_mode)
                &&& is_latest(before.versions, chosen.challenge_id@, chosen.version)
                &&& forall|other: Seq<char>| #[trigger]
                    playable(before.versions, other, config.programming_mode) && other
                        != chosen.challenge_id@ ==> menu_before(
                        before.versions,
                        chosen.challenge_id@,
                        other,
                    )
                &&& #[trigger] creates(before.matches, after.matches, config, chosen, now, Ok(state))
                &&& after == (ServiceView { matches: after.matches, ..before })
            };
        crate::catalog::law_latest_is_the_highest_version(
            before.versions,
            chosen.challenge_id@,
            chosen.version,
        );
    }
}


/// Sessions opened one after another have different names.
pub proof fn law_sessions_are_named_apart(seed: u64, first: u64, second: u64)
    requires
        first != second,
    ensures
        session_name(seed, first) != session_name(seed, second),
{
    let a = (first * 0x9e37_79b9_7f4a_7c15 % 0x1_0000_0000_0000_0000) as u64;
    let b = (second * 0x9e37_79b9_7f4a_7c15 % 0x1_0000_0000_0000_0000) as u64;
    lemma_spreading_is_undone(first);
    lemma_spreading_is_undone(second);
    assert(a != b);
    assert((seed ^ a) != (seed ^ b)) by (bit_vector)
        requires
            a != b,
    ;
    let (x, y) = (hex_text((seed ^ a) as nat, 16), hex_text((seed ^ b) as nat, 16));
    if "s-"@ + x == "s-"@ + y {
        assert(("s-"@ + x).skip("s-"@.len() as int) =~= x);
        assert(("s-"@ + y).skip("s-"@.len() as int) =~= y);
        assert(vstd::arithmetic::power::pow(16, 16) == 0x1_0000_0000_0000_0000) by {
            reveal_with_fuel(vstd::arithmetic::power::pow, 17);
        }
        crate::text::law_hex_digits_tell_numbers_apart((seed ^ a) as nat, (seed ^ b) as nat, 16);
    }
}

/// The ordinal of a session is found again in its spread-out form.
proof fn lemma_spreading_is_undone(ordinal: u64)
    ensures
        (ordinal * 0x9e37_79b9_7f4a_7c15 % 0x1_0000_0000_0000_0000) * 0xf1de_83e1_9937_733d
            % 0x1_0000_0000_0000_0000 == ordinal,
{
    let whole: int = 0x1_0000_0000_0000_0000;
    let spread = ordinal * 0x9e37_79b9_7f4a_7c15;
    let back: int = 0xf1de_83e1_9937_733d;
    vstd::arithmetic::div_mod::lemma_fundamental_div_mod(spread, whole);
    let (q, r) = (spread / whole, spread % whole);
    let turns = ordinal * 10771413168148108919 - q * back;
    assert(r * back == turns * whole + ordinal) by (nonlinear_arith)
        requires
            spread == whole * q + r,
            spread == ordinal * 0x9e37_79b9_7f4a_7c15,
            whole == 0x1_0000_0000_0000_0000,
            back == 0xf1de_83e1_9937_733d,
            turns == ordinal * 10771413168148108919 - q * back,
    ;
    vstd::arithmetic::div_mod::lemma_mod_multiples_vanish(turns, ordinal as int, whole);
    assert(whole * turns + ordinal == turns * whole + ordinal) by (nonlinear_arith);
    vstd::arithmetic::div_mod::lemma_small_mod(ordinal as nat, whole as nat);
}


/// A challenge is handed out in the version that was asked for, and in its highest one where none was;
/// a version that is not stored is not found, though others may be.
pub proof fn law_a_challenge_is_handed_out_as_asked(
    versions: Versions,
    id: Seq<char>,
    version: u32,
    highest: u32,
    asked: ServiceResult<&ChallengeDefinitionDto>,
    latest_one: ServiceResult<&ChallengeDefinitionDto>,
)
    requires
        looks_up(versions, id, Some(version), asked),
        looks_up(versions, id, None, latest_one),
        is_latest(versions, id, highest),
    ensures
        versions.contains_key((id, version)) ==> (asked matches Ok(dto) && *dto == versions[(
            id,
            version,
        )]),
        !versions.contains_key((id, version)) ==> (asked matches Err(
            ServiceError::ChallengeNotFound { challenge_id, version: named },
        ) && challenge_id@ == id && named == Some(version)),
        latest_one matches Ok(dto) && *dto == versions[(id, highest)],
{
    crate::catalog::law_latest_is_the_highest_version(versions, id, highest);
}

/// What is on record of an answer is what the learner was told.
pub proof fn law_the_record_tells_the_answer(
    before: ServiceView,
    after: ServiceView,
    request: SessionRespond,
    claims: ItemRefClaims,
    now: u64,
    outcome: ResponseOutcome,
    event: UsageEvent,
)
    requires
        answers(before, after, request, Some(claims), now, Ok((outcome, event))),
    ensures
        event matches UsageEvent::SessionResponse {
            ts,
            session_id,
            challenge_id,
            mode,
            raw_score,
            correct,
            theta,
            standard_error,
        } && ts == now && session_id@ == request.session_id@ && challenge_id@ == claims.item_id@ && mode
            == before.sessions[request.session_id@].actor.mode && raw_score == outcome.raw_score
            && correct == outcome.correct && theta == outcome.theta && standard_error
            == outcome.standard_error,
        after.sessions[request.session_id@].last_seen == now,
        after.submissions == before.submissions,
        after.matches == before.matches,
{
}

/// The sessions that are swept are those that have stood idle for longer than the whole timeout, and
/// no others.
pub proof fn law_idle_sessions_are_swept(service: ServiceView, id: Seq<char>, now: u64)
    requires
        service.sessions.contains_key(id),
    ensures
        service.stale_sessions(now).contains(id) <==> service.sessions[id].last_seen
            + service.session_idle_timeout_ms < now,
{
}

}
