//! Request and response payloads.

use crate::cutter::ProgrammingMode;
use crate::domain::{ProgramMetrics, ScoreResult, ScoringConfig, Terminal};
use crate::number::Real;
use crate::wire::HcrErrorCode;
use vstd::prelude::*;

verus! {

/// Input to direct scoring. Voxel sets travel as `x,y,z` keys.
#[derive(Clone, Debug, PartialEq, Eq)]
pub struct ScoreInput {
    /// The hairstyle before the program ran.
    pub initial_voxels: Vec<String>,
    /// The hairstyle being aimed for.
    pub target_voxels: Vec<String>,
    /// What the program actually left standing.
    pub result_voxels: Vec<String>,
    /// Program size and timing.
    pub program_metrics: ProgramMetrics,
    /// Scoring parameters.
    pub scoring: ScoringConfig,
}

/// Catalog listing entry.
#[derive(Clone, Debug, PartialEq, Eq)]
pub struct ChallengeSummary {
    /// Stable identifier.
    pub id: String,
    /// Display name.
    pub name: String,
    /// Display description.
    pub description: String,
}

/// What the browser computed locally. Advisory only.
#[derive(Clone, Debug, PartialEq, Eq)]
pub struct ClientPreview {
    /// The client's own score.
    pub score_result: ScoreResult,
    /// Hash over its sorted result voxels.
    pub result_voxels_hash: String,
    /// Which engine build produced it.
    pub engine_version: String,
    /// Tick size it used.
    pub tick_ms: Real,
}

/// A program submitted for authoritative scoring: what the service reads of it.
/// The program itself goes to the replay engine untouched.
#[derive(Clone, Debug, PartialEq, Eq)]
pub struct SubmissionCreate {
    /// The idempotency key: resubmitting returns the first result rather than
    /// re-scoring.
    pub submission_id: String,
    /// Which challenge.
    pub challenge_id: String,
    /// Which version of it. Pinned so recalibration cannot move the score.
    pub challenge_version: u32,
    /// Whether the submission carries a Cutter Grid trajectory. If it does, that
    /// trajectory is verified and scored instead of the servo program.
    pub cutter_grid: bool,
    /// Set when this submission belongs to an adaptive session.
    pub session_id: Option<String>,
    /// Set when it belongs to a competitive round.
    pub match_id: Option<String>,
    /// Advisory client-side result, used only for divergence telemetry.
    pub client_preview: Option<ClientPreview>,
}

/// Terminal disposition of a scored submission.
#[derive(Clone, Copy, Debug, PartialEq, Eq, Structural)]
pub enum SubmissionStatus {
    /// The program ran to completion.
    Completed,
    /// It was halted, by the head constraint, the command cap, or a budget.
    Error,
}

/// Provenance of the authoritative replay.
#[derive(Debug, PartialEq, Eq)]
pub struct ReplayInfo {
    /// Engine build that produced the score.
    pub engine_version: String,
    /// Tick size used.
    pub tick_ms: Real,
    /// Simulated milliseconds consumed.
    pub simulated_ms: Real,
    /// Whether the client's preview disagreed with the authoritative run.
    pub diverged_from_client: bool,
}

impl Clone for ReplayInfo {
    fn clone(&self) -> (r: Self)
        ensures
            r == *self,
    {
        ReplayInfo {
            engine_version: self.engine_version.clone(),
            tick_ms: self.tick_ms,
            simulated_ms: self.simulated_ms,
            diverged_from_client: self.diverged_from_client,
        }
    }
}

/// The authoritative result of scoring a submission.
#[derive(Debug, PartialEq, Eq)]
pub struct SubmissionResult {
    /// Echoes the request.
    pub submission_id: String,
    /// Which challenge was scored.
    pub challenge_id: String,
    /// At which version.
    pub challenge_version: u32,
    /// Completed or halted.
    pub status: SubmissionStatus,
    /// Which editor wrote the program that was scored.
    pub programming_mode: ProgrammingMode,
    /// The score of record.
    pub score: ScoreResult,
    /// Program size and timing.
    pub metrics: ProgramMetrics,
    /// Canonical hash of the remaining voxels.
    pub result_voxels_hash: String,
    /// Why the run ended, with attribution.
    pub terminal: Terminal,
    /// Replay provenance.
    pub replay: ReplayInfo,
    /// Code of the failure, when the submission failed validation outright.
    pub error: Option<HcrErrorCode>,
}

impl Clone for SubmissionResult {
    fn clone(&self) -> (r: Self)
        ensures
            r == *self,
    {
        SubmissionResult {
            submission_id: self.submission_id.clone(),
            challenge_id: self.challenge_id.clone(),
            challenge_version: self.challenge_version,
            status: self.status,
            programming_mode: self.programming_mode,
            score: self.score,
            metrics: self.metrics,
            result_voxels_hash: self.result_voxels_hash.clone(),
            terminal: self.terminal.clone(),
            replay: self.replay.clone(),
            error: self.error,
        }
    }
}

/// Request to open an adaptive session.
#[derive(Clone, Debug, PartialEq, Eq)]
pub struct SessionStart {
    /// Content blueprint to apply.
    pub blueprint_id: Option<String>,
    /// Starting ability estimate, from the same programming mode.
    pub initial_theta: Option<Real>,
    /// Which editor this session is practised in, throughout.
    pub programming_mode: ProgrammingMode,
}

impl Default for SessionStart {
    fn default() -> (r: SessionStart)
        ensures
            r == (SessionStart {
                blueprint_id: None,
                initial_theta: None,
                programming_mode: ProgrammingMode::Servo,
            }),
    {
        SessionStart {
            blueprint_id: None,
            initial_theta: None,
            programming_mode: ProgrammingMode::Servo,
        }
    }
}

/// Where a session is in its lifecycle.
#[derive(Clone, Copy, Debug, PartialEq, Eq, Structural)]
pub enum SessionLifecycle {
    /// Ready to serve the next item.
    Active,
    /// An item has been served and is awaiting a response.
    AwaitingResponse,
    /// The terminator has fired; no further items.
    Terminated,
    /// Finalized; the result has been issued.
    Finalized,
}

/// Public view of a session.
#[derive(Clone, Debug, PartialEq, Eq)]
pub struct SessionSnapshot {
    /// Session identity.
    pub session_id: String,
    /// Ability estimate on the logit scale.
    pub theta: Real,
    /// Standard error. Absent before the first response, where it is infinite.
    pub standard_error: Option<Real>,
    /// Responses recorded.
    pub response_count: u32,
    /// Items the terminator expects to still need.
    pub expected_remaining: Option<u32>,
    /// Lifecycle position.
    pub state: SessionLifecycle,
    /// Why it terminated, when it has.
    pub termination_reason: Option<String>,
}

/// The next item to attempt.
#[derive(Debug, PartialEq, Eq)]
pub struct NextItem {
    /// Opaque signed token binding this issue to the session and bank index.
    pub item_ref: String,
    /// Which challenge to load.
    pub challenge_id: String,
    /// At which version.
    pub challenge_version: u32,
    /// Items the terminator expects to still need.
    pub expected_remaining: Option<u32>,
}

impl Clone for NextItem {
    fn clone(&self) -> (r: Self)
        ensures
            r == *self,
    {
        NextItem {
            item_ref: self.item_ref.clone(),
            challenge_id: self.challenge_id.clone(),
            challenge_version: self.challenge_version,
            expected_remaining: self.expected_remaining,
        }
    }
}

/// Report a scored submission against a served item.
#[derive(Clone, Debug, PartialEq, Eq)]
pub struct SessionRespond {
    /// Which session.
    pub session_id: String,
    /// The token issued with the item.
    pub item_ref: String,
    /// The submission that was scored.
    pub submission_id: String,
}

/// Effect of a response on the ability estimate.
#[derive(Clone, Debug, PartialEq, Eq)]
pub struct ResponseOutcome {
    /// The dichotomised verdict, after the mastery-threshold remap.
    pub correct: bool,
    /// Raw normalized score.
    pub raw_score: Real,
    /// Updated ability estimate.
    pub theta: Real,
    /// Updated standard error.
    pub standard_error: Real,
    /// Whether the session has now terminated.
    pub terminated: bool,
    /// Why, when it has.
    pub termination_reason: Option<String>,
}

/// One item's contribution to a finished session.
#[derive(Clone, Debug, PartialEq, Eq)]
pub struct SessionItemRecord {
    /// Which challenge.
    pub challenge_id: String,
    /// At which version.
    pub challenge_version: u32,
    /// Raw normalized score.
    pub raw_score: Real,
    /// Whether it counted as mastery.
    pub correct: bool,
    /// Ability before the response.
    pub theta_before: Real,
    /// Ability after.
    pub theta_after: Real,
}

/// The result of a completed session.
#[derive(Clone, Debug, PartialEq, Eq)]
pub struct SessionResultDto {
    /// Session identity.
    pub session_id: String,
    /// Final ability estimate.
    pub final_theta: Real,
    /// Final standard error.
    pub standard_error: Real,
    /// Items administered.
    pub total_items: u32,
    /// Wall-clock duration.
    pub duration_ms: u64,
    /// Terminator's stated reason.
    pub termination_reason: String,
    /// Per-item history.
    pub items: Vec<SessionItemRecord>,
}

/// What a lesson section asks of the learner.
#[derive(Clone, Copy, Debug, PartialEq, Eq, Structural)]
pub enum LessonActivity {
    /// Read an explanation.
    Read,
    /// Predict an outcome before running anything.
    Predict,
    /// Build a program.
    Build,
    /// Watch what the arm does.
    Observe,
    /// Repair or change a route that is already on the canvas.
    Challenge,
    /// Recap of what the lesson established.
    Recap,
}

/// What happened in a lesson.
#[derive(Clone, Copy, Debug, PartialEq, Eq, Structural)]
pub enum LessonOutcome {
    /// It was opened. `section` is where it resumed.
    Opened,
    /// A section's own gate was met and the learner moved past it.
    SectionPassed,
    /// The closed-book quiz was answered correctly.
    QuizPassed,
    /// Quiz and practical both passed.
    Completed,
    /// The learner left before finishing; `section` is where they stopped.
    Abandoned,
}

/// One thing a learner did in a lesson, as the client asserts it.
#[derive(Clone, Debug, PartialEq, Eq)]
pub struct LessonEventCreate {
    /// Which lesson.
    pub lesson_id: String,
    /// Zero-based section index within that lesson.
    pub section: u32,
    /// What that section asks for. Absent on whole-lesson outcomes.
    pub activity: Option<LessonActivity>,
    /// What happened.
    pub outcome: LessonOutcome,
    /// Successful test runs in this lesson so far.
    pub tests: Option<u32>,
    /// Which editor the lesson teaches. Absent means servo.
    pub mode: Option<ProgrammingMode>,
}

/// Acknowledgement for a recorded lesson event.
#[derive(Clone, Copy, Debug, PartialEq, Eq, Structural)]
pub struct LessonEventAck {
    /// Whether a row reached the usage log.
    pub recorded: bool,
}

}
