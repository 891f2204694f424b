//! Adaptive sessions.
//!
//! An [`Actor`] owns one session of the adaptive engine and what the service
//! keeps beside it: the item that awaits a response, and the history. The engine
//! decides which item comes next, when to stop and how an answer moves the
//! ability estimate; the actor decides what may be asked of it and when.

use crate::api::{
    NextItem, ResponseOutcome, SessionItemRecord, SessionLifecycle, SessionResultDto,
    SessionSnapshot,
};
use crate::bank::ServedItem;
use crate::cutter::ProgrammingMode;
use crate::error::{ServiceError, ServiceResult};
use crate::itemref::{reference, ItemRefClaims, ItemRefSigner};
use crate::number::Real;
use crate::table::TextMap;
use crate::text::same;
use arona::qbank::QBankError;
use arona::session::{Session, SessionError};
use vstd::prelude::*;

verus! {

/// Tunables for an adaptive session.
///
/// An item here is a multi-minute programming task, so both the warmup and the
/// length budget are small.
#[derive(Clone, Copy, Debug, PartialEq, Eq, Structural)]
pub struct SessionConfig {
    /// Items before the session may stop early on precision.
    pub min_items: usize,
    /// Hard ceiling on items.
    pub max_items: usize,
    /// Standard error at which measurement is precise enough.
    pub target_se: Real,
    /// Random items served before adaptive selection engages.
    pub warmup_items: usize,
    /// Prior mean for the ability estimate.
    pub prior_mean: Real,
    /// Prior standard deviation.
    pub prior_sd: Real,
    /// How far below maximum information a candidate may fall.
    pub tolerance: Real,
    /// Items less discriminating than this are skipped.
    pub min_discrimination: Real,
}

impl SessionConfig {
    /// Four to twelve items, a standard error of 0.4, two warmup items, a
    /// standard normal prior, tolerance one, discrimination at least 0.4.
    pub open spec fn usual() -> SessionConfig {
        SessionConfig {
            min_items: 4,
            max_items: 12,
            target_se: Real { bits: 0x3fd9_9999_9999_999a },
            warmup_items: 2,
            prior_mean: Real { bits: 0 },
            prior_sd: Real { bits: 0x3ff0_0000_0000_0000 },
            tolerance: Real { bits: 0x3ff0_0000_0000_0000 },
            min_discrimination: Real { bits: 0x3fd9_9999_9999_999a },
        }
    }
}

impl Default for SessionConfig {
    fn default() -> (r: Self)
        ensures
            r == SessionConfig::usual(),
    {
        SessionConfig {
            min_items: 4,
            max_items: 12,
            target_se: Real { bits: 0x3fd9_9999_9999_999a },
            warmup_items: 2,
            prior_mean: Real::zero(),
            prior_sd: Real::one(),
            tolerance: Real::one(),
            min_discrimination: Real { bits: 0x3fd9_9999_9999_999a },
        }
    }
}

/// `arona::session::Session`, the adaptive engine's session, carried as it is.
#[verifier::external_type_specification]
#[verifier::external_body]
pub struct ExSession(arona::session::Session);

/// `arona::session::SessionError`, a refusal by the engine, carried as it is.
#[verifier::external_type_specification]
#[verifier::external_body]
pub struct ExSessionError(arona::session::SessionError);

/// Why the engine refuses a request.
#[derive(Clone, Debug, PartialEq, Eq)]
pub enum EngineError {
    /// No question awaits an answer.
    NoCurrentQuestion,
    /// The session is over.
    AlreadyTerminated,
    /// The bank has no question that fits.
    NoQuestionAvailable,
    /// The bank misses a parameter of the selection.
    MissingParam(String),
    /// A parameter of the selection is of another type than the bank expects.
    TypeMismatch(String),
    /// A parameter of the selection has a value the bank cannot use.
    InvalidValue(String),
}

/// What the engine reports about itself.
#[derive(Clone, Copy, Debug, PartialEq, Eq, Structural)]
pub struct EngineState {
    /// Ability estimate.
    pub ability: Real,
    /// Its standard error, infinite before the first response.
    pub standard_error: Real,
    /// Responses recorded.
    pub responses: usize,
}

/// What the engine made of an answer.
#[derive(Clone, Copy, Debug, PartialEq, Eq, Structural)]
pub struct EngineVerdict {
    /// Whether the answer counted as correct.
    pub correct: bool,
    /// Ability estimate afterwards.
    pub ability: Real,
    /// Standard error afterwards.
    pub standard_error: Real,
}

/// What the engine reports of a session that was closed.
#[derive(Clone, Debug, PartialEq, Eq)]
pub struct EngineResult {
    /// Final ability estimate.
    pub ability: Real,
    /// Final standard error.
    pub standard_error: Real,
    /// Items administered.
    pub items: usize,
    /// The terminator's stated reason.
    pub reason: String,
}

/// The answers of the responses that a session holds, in the order they were
/// taken: the `answer` of each of `arona::session::Session::state`'s `responses`.
pub uninterp spec fn answers_held(session: Session) -> Seq<Seq<char>>;

/// The estimate that a session holds, as encodings: the `ability` and the
/// `standard_error` of `arona::session::Session::state`.
pub uninterp spec fn estimate_held(session: Session) -> (u64, u64);

/// The ability that a session holds.
pub open spec fn ability_held(session: Session) -> Real {
    Real { bits: estimate_held(session).0 }
}

/// The standard error of the ability that a session holds.
pub open spec fn error_held(session: Session) -> Real {
    Real { bits: estimate_held(session).1 }
}

/// Whether two sessions hold the same responses and the same estimate.
pub open spec fn same_standing(a: Session, b: Session) -> bool {
    answers_held(a) == answers_held(b) && estimate_held(a) == estimate_held(b)
}

/// Tells the variants of `arona::session::SessionError` apart, and those of the
/// `arona::qbank::QBankError` in it.
#[verifier::external_body]
fn engine_error(error: SessionError) -> (r: EngineError) {
    match error {
        SessionError::NoCurrentQuestion => EngineError::NoCurrentQuestion,
        SessionError::AlreadyTerminated => EngineError::AlreadyTerminated,
        SessionError::QBankError(QBankError::NoQuestionAvailable) => EngineError::NoQuestionAvailable,
        SessionError::QBankError(QBankError::MissingParam(name)) => EngineError::MissingParam(name),
        SessionError::QBankError(QBankError::TypeMismatch(what)) => EngineError::TypeMismatch(what),
        SessionError::QBankError(QBankError::InvalidValue(why)) => EngineError::InvalidValue(why),
    }
}

/// Calls `arona::session::Session::should_terminate`. What it answers rests on
/// the terminator the session was built with, and is left open.
#[verifier::external_body]
fn engine_should_stop(session: &Session) -> (r: bool) {
    session.should_terminate()
}

/// Calls `arona::session::Session::next_question`, and keeps only whether it
/// selected one. Which one is left open: the bank it was built with decides. The
/// call adds no response and moves no estimate.
#[verifier::external_body]
fn engine_select(session: &mut Session) -> (r: Result<(), SessionError>)
    ensures
        same_standing(*final(session), *old(session)),
{
    session.next_question().map(|_question| ())
}

/// Calls `arona::session::Session::last_selected_index`, which asks the bank the
/// session was built with. What it answers is left open.
#[verifier::external_body]
fn engine_selected(session: &Session) -> (r: Option<usize>) {
    session.last_selected_index()
}

/// Calls `arona::session::Session::expected_remaining`. What it answers rests on
/// the terminator the session was built with, and is left open.
#[verifier::external_body]
fn engine_remaining(session: &Session) -> (r: Option<usize>) {
    session.expected_remaining()
}

/// Calls `arona::session::Session::termination_reason`. What it answers rests on
/// the terminator the session was built with, and is left open.
#[verifier::external_body]
fn engine_reason(session: &Session) -> (r: Option<String>) {
    session.termination_reason()
}

/// Calls `arona::session::Session::state` and reads off the ability estimate, its
/// standard error and the number of responses.
#[verifier::external_body]
fn engine_state(session: &Session) -> (r: EngineState)
    ensures
        (r.ability.bits, r.standard_error.bits) == estimate_held(*session),
        r.responses == answers_held(*session).len(),
{
    let state = session.state();
    EngineState {
        ability: Real { bits: state.ability.0.to_bits() },
        standard_error: Real { bits: state.standard_error.0.to_bits() },
        responses: state.response_count(),
    }
}

/// Calls `arona::session::Session::submit_response`. A response that is taken is
/// held under its answer, and the estimate it reports is the one the session then
/// holds; one that is refused changes neither. How the answer is scored and how far
/// it moves the estimate rests on the question and the estimator, and is left open.
#[verifier::external_body]
fn engine_submit(session: &mut Session, answer: &str) -> (r: Result<EngineVerdict, SessionError>)
    ensures
        match r {
            Ok(verdict) => {
                &&& answers_held(*final(session)) == answers_held(*old(session)).push(answer@)
                &&& (verdict.ability.bits, verdict.standard_error.bits) == estimate_held(*final(session))
            },
            Err(_) => same_standing(*final(session), *old(session)),
        },
{
    session.submit_response(answer).map(|result| EngineVerdict {
        correct: result.correct,
        ability: Real { bits: result.new_ability.0.to_bits() },
        standard_error: Real { bits: result.new_se.0.to_bits() },
    })
}

/// Calls `arona::session::Session::finalize`, which reports the estimate and the
/// number of responses that the session holds. The reason is the terminator's, and
/// is left open.
#[verifier::external_body]
fn engine_close(session: Session) -> (r: EngineResult)
    ensures
        (r.ability.bits, r.standard_error.bits) == estimate_held(session),
        r.items == answers_held(session).len(),
{
    let result = session.finalize();
    EngineResult {
        ability: Real { bits: result.final_ability.0.to_bits() },
        standard_error: Real { bits: result.standard_error.0.to_bits() },
        items: result.total_items,
        reason: result.termination_reason,
    }
}

/// Whether an error reports a refusal by the engine.
pub open spec fn reports_engine(error: ServiceError, refusal: EngineError) -> bool {
    match refusal {
        EngineError::AlreadyTerminated => error is SessionTerminated,
        EngineError::NoCurrentQuestion => error is SessionNotAwaitingResponse,
        EngineError::NoQuestionAvailable => error is BankExhausted,
        _ => error.is_internal("question bank rejected the request"@),
    }
}

/// The error that reports a refusal by the engine.
pub fn map_session_error(refusal: EngineError) -> (r: ServiceError)
    ensures
        reports_engine(r, refusal),
{
    match refusal {
        EngineError::AlreadyTerminated => ServiceError::SessionTerminated,
        EngineError::NoCurrentQuestion => ServiceError::SessionNotAwaitingResponse,
        EngineError::NoQuestionAvailable => ServiceError::BankExhausted,
        EngineError::MissingParam(_) | EngineError::TypeMismatch(_) | EngineError::InvalidValue(_) =>
            ServiceError::Internal("question bank rejected the request"),
    }
}

/// What asking for the next item leads to.
#[derive(Debug, PartialEq, Eq)]
pub enum Choice {
    /// An item already awaits a response: the same one again, rather than
    /// silently consuming another.
    Pending(NextItem),
    /// The bank selected an item.
    Selected {
        /// Its index in the serve log.
        index: usize,
        /// Items the terminator expects to still need.
        expected_remaining: Option<u32>,
    },
}

/// A count as the wire carries it: its low 32 bits.
pub open spec fn wire_count(count: Option<usize>) -> Option<u32> {
    match count {
        Some(n) => Some(n as u32),
        None => None,
    }
}

/// What follows from what the engine answered to a request for an item.
pub open spec fn follows_selection(
    r: ServiceResult<Choice>,
    stop: bool,
    selected: Result<(), EngineError>,
    index: Option<usize>,
    remaining: Option<usize>,
) -> bool {
    if stop {
        r matches Err(error) && error is SessionTerminated
    } else {
        match selected {
            Err(refusal) => r matches Err(error) && reports_engine(error, refusal),
            Ok(_) => match index {
                None => r matches Err(error) && error.is_internal("bank reported no selected index"@),
                Some(i) => r matches Ok(Choice::Selected { index, expected_remaining }) && index == i
                    && expected_remaining == wire_count(remaining),
            },
        }
    }
}

/// Decide what follows from what the engine answered to a request for an item:
/// whether it stops, whether it selected one, under which index, and how many it
/// still expects.
pub fn after_selection(
    stop: bool,
    selected: Result<(), EngineError>,
    index: Option<usize>,
    remaining: Option<usize>,
) -> (r: ServiceResult<Choice>)
    ensures
        follows_selection(r, stop, selected, index, remaining),
{
    if stop {
        return Err(ServiceError::SessionTerminated);
    }
    match selected {
        Err(refusal) => Err(map_session_error(refusal)),
        Ok(_) => match index {
            None => Err(ServiceError::Internal("bank reported no selected index")),
            Some(index) => Ok(
                Choice::Selected {
                    index,
                    expected_remaining: match remaining {
                        Some(n) => Some(n as u32),
                        None => None,
                    },
                },
            ),
        },
    }
}

/// Where a session is in its lifecycle.
pub open spec fn lifecycle(finalized: bool, terminated: bool, awaiting: bool) -> SessionLifecycle {
    if finalized {
        SessionLifecycle::Finalized
    } else if terminated {
        SessionLifecycle::Terminated
    } else if awaiting {
        SessionLifecycle::AwaitingResponse
    } else {
        SessionLifecycle::Active
    }
}

/// Whether a snapshot shows a session as the engine reports it. A standard error
/// that is infinite, as before the first response, is reported as absent.
pub open spec fn is_described(
    snapshot: SessionSnapshot,
    session_id: Seq<char>,
    state: EngineState,
    terminated: bool,
    remaining: Option<usize>,
    reason: Option<String>,
    finalized: bool,
    awaiting: bool,
) -> bool {
    &&& snapshot.session_id@ == session_id
    &&& snapshot.theta == state.ability
    &&& snapshot.standard_error == if state.standard_error.finite() {
        Some(state.standard_error)
    } else {
        None
    }
    &&& snapshot.response_count == state.responses as u32
    &&& snapshot.expected_remaining == wire_count(remaining)
    &&& snapshot.state == lifecycle(finalized, terminated, awaiting)
    &&& snapshot.termination_reason == reason
}

/// Describe a session from what the engine reports. A standard error that is
/// infinite, as before the first response, is reported as absent.
pub fn describe(
    session_id: String,
    state: EngineState,
    terminated: bool,
    remaining: Option<usize>,
    reason: Option<String>,
    finalized: bool,
    awaiting: bool,
) -> (r: SessionSnapshot)
    ensures
        r.session_id == session_id,
        is_described(
            r,
            session_id@,
            state,
            terminated,
            remaining,
            reason,
            finalized,
            awaiting,
        ),
{
    SessionSnapshot {
        session_id,
        theta: state.ability,
        standard_error: if state.standard_error.is_finite() {
            Some(state.standard_error)
        } else {
            None
        },
        response_count: state.responses as u32,
        expected_remaining: match remaining {
            Some(n) => Some(n as u32),
            None => None,
        },
        state: if finalized {
            SessionLifecycle::Finalized
        } else if terminated {
            SessionLifecycle::Terminated
        } else if awaiting {
            SessionLifecycle::AwaitingResponse
        } else {
            SessionLifecycle::Active
        },
        termination_reason: reason,
    }
}

/// The record of a response that the engine took.
pub open spec fn recorded(
    item_id: String,
    version: u32,
    raw_score: Real,
    theta_before: Real,
    verdict: EngineVerdict,
) -> SessionItemRecord {
    SessionItemRecord {
        challenge_id: item_id,
        challenge_version: version,
        raw_score,
        correct: verdict.correct,
        theta_before,
        theta_after: verdict.ability,
    }
}

/// What a player is told of a response that the engine took.
pub open spec fn outcome_of(
    raw_score: Real,
    verdict: EngineVerdict,
    terminated: bool,
    reason: Option<String>,
) -> ResponseOutcome {
    ResponseOutcome {
        correct: verdict.correct,
        raw_score,
        theta: verdict.ability,
        standard_error: verdict.standard_error,
        terminated,
        termination_reason: reason,
    }
}

/// What is recorded, and what a player is told, of a response that the engine
/// took: its verdict, whether the session ends with it, and why.
pub fn answered(
    item_id: String,
    version: u32,
    raw_score: Real,
    theta_before: Real,
    verdict: EngineVerdict,
    terminated: bool,
    reason: Option<String>,
) -> (r: (SessionItemRecord, ResponseOutcome))
    ensures
        r.0 == recorded(item_id, version, raw_score, theta_before, verdict),
        r.1 == outcome_of(raw_score, verdict, terminated, reason),
{
    (
        SessionItemRecord {
            challenge_id: item_id,
            challenge_version: version,
            raw_score,
            correct: verdict.correct,
            theta_before,
            theta_after: verdict.ability,
        },
        ResponseOutcome {
            correct: verdict.correct,
            raw_score,
            theta: verdict.ability,
            standard_error: verdict.standard_error,
            terminated,
            termination_reason: reason,
        },
    )
}

/// Whether a result is what the engine reports of a session that was closed.
pub open spec fn is_concluded(
    dto: SessionResultDto,
    session_id: Seq<char>,
    result: EngineResult,
    elapsed_ms: u64,
    items: Seq<SessionItemRecord>,
) -> bool {
    &&& dto.session_id@ == session_id
    &&& dto.final_theta == result.ability
    &&& dto.standard_error == result.standard_error
    &&& dto.total_items == result.items as u32
    &&& dto.duration_ms == elapsed_ms
    &&& dto.termination_reason == result.reason
    &&& dto.items@ == items
}

/// The result of a session, from what the engine reports of it.
pub fn concluded(
    session_id: String,
    result: EngineResult,
    elapsed_ms: u64,
    items: Vec<SessionItemRecord>,
) -> (r: SessionResultDto)
    ensures
        is_concluded(r, session_id@, result, elapsed_ms, items@),
{
    SessionResultDto {
        session_id,
        final_theta: result.ability,
        standard_error: result.standard_error,
        total_items: result.items as u32,
        duration_ms: elapsed_ms,
        termination_reason: result.reason,
        items,
    }
}

/// A session and what the service keeps beside it.
pub struct Actor {
    session_id: String,
    mode: ProgrammingMode,
    session: Option<Session>,
    signer: ItemRefSigner,
    awaiting: Option<(ItemRefClaims, NextItem)>,
    history: Vec<SessionItemRecord>,
    finalized: bool,
}

/// A session, by value.
#[verifier::ext_equal]
pub struct ActorView {
    /// Session identity.
    pub session_id: Seq<char>,
    /// Editor the session is practised in.
    pub mode: ProgrammingMode,
    /// The engine's session, until it is closed.
    pub engine: Option<Session>,
    /// Key that references are sealed with.
    pub key: Seq<u8>,
    /// The item issued and not yet answered, with what its reference asserts.
    pub awaiting: Option<(ItemRefClaims, NextItem)>,
    /// Responses recorded.
    pub history: Seq<SessionItemRecord>,
    /// Whether the session was closed.
    pub finalized: bool,
}

impl View for Actor {
    type V = ActorView;

    closed spec fn view(&self) -> ActorView {
        ActorView {
            session_id: self.session_id@,
            mode: self.mode,
            engine: self.session,
            key: self.signer@,
            awaiting: self.awaiting,
            history: self.history@,
            finalized: self.finalized,
        }
    }
}

/// Why a response is not admitted.
pub enum ResponseRefusal {
    /// The reference was issued to another session.
    OtherSession,
    /// No item awaits a response.
    NotAwaiting,
    /// The reference is for another item than the one that awaits a response.
    OtherItem,
}

impl ActorView {
    /// A session that was just taken into service.
    pub open spec fn opened(
        session_id: Seq<char>,
        mode: ProgrammingMode,
        session: Session,
        key: Seq<u8>,
    ) -> ActorView {
        ActorView {
            session_id,
            mode,
            engine: Some(session),
            key,
            awaiting: None,
            history: Seq::empty(),
            finalized: false,
        }
    }

    /// Why a response with a reference is not admitted. A validly signed
    /// reference to some other item is still the wrong answer: a client could
    /// otherwise respond against whichever served item it preferred.
    pub open spec fn refusal(self, claims: ItemRefClaims) -> Option<ResponseRefusal> {
        if claims.session_id@ != self.session_id {
            Some(ResponseRefusal::OtherSession)
        } else {
            match self.awaiting {
                None => Some(ResponseRefusal::NotAwaiting),
                Some((expected, _)) => if expected.bank_index != claims.bank_index
                    || expected.item_id@ != claims.item_id@ || expected.challenge_version
                    != claims.challenge_version {
                    Some(ResponseRefusal::OtherItem)
                } else {
                    None
                },
            }
        }
    }
}

/// Whether an error reports why a response is not admitted.
pub open spec fn reports_response(error: ServiceError, refusal: ResponseRefusal) -> bool {
    match refusal {
        ResponseRefusal::OtherSession => error.is_item_ref_invalid("issued to another session"@),
        ResponseRefusal::NotAwaiting => error is SessionNotAwaitingResponse,
        ResponseRefusal::OtherItem => error.is_item_ref_invalid(
            "does not match the item currently awaiting a response"@,
        ),
    }
}

/// What asking a session for the next item does. While an item awaits its
/// response nothing is asked of the engine, and neither is once the session is
/// over; otherwise the engine may move on, but takes no response by it.
pub open spec fn chooses(before: ActorView, after: ActorView, r: ServiceResult<Choice>) -> bool {
    match before.awaiting {
        Some((_, item)) => r == Ok::<Choice, ServiceError>(Choice::Pending(item)) && after == before,
        None => if before.finalized {
            r matches Err(error) && error is SessionTerminated && after == before
        } else {
            match before.engine {
                None => r matches Err(error) && error.is_internal("session already finalized"@) && after
                    == before,
                Some(engine) => {
                    &&& after.engine is Some
                    &&& same_standing(after.engine->0, engine)
                    &&& after == (ActorView { engine: after.engine, ..before })
                    &&& exists|
                        stop: bool,
                        selected: Result<(), EngineError>,
                        index: Option<usize>,
                        remaining: Option<usize>,
                    | #[trigger]
                        follows_selection(r, stop, selected, index, remaining) && (stop ==> after
                            == before)
                },
            }
        },
    }
}

/// What a response that the engine took leaves behind: it is held under the
/// submission it reports, the record and the outcome are those of a verdict of the
/// engine, and the session is free for the next item.
pub open spec fn takes(
    before: ActorView,
    after: ActorView,
    claims: ItemRefClaims,
    submission_id: Seq<char>,
    raw_score: Real,
    outcome: ResponseOutcome,
    verdict: EngineVerdict,
    terminated: bool,
    reason: Option<String>,
) -> bool {
    &&& after.engine is Some
    &&& answers_held(after.engine->0) == answers_held(before.engine->0).push(submission_id)
    &&& verdict.ability == ability_held(after.engine->0)
    &&& verdict.standard_error == error_held(after.engine->0)
    &&& outcome == outcome_of(raw_score, verdict, terminated, reason)
    &&& after == (ActorView {
        engine: after.engine,
        awaiting: None,
        history: before.history.push(
            recorded(
                (before.awaiting->0).0.item_id,
                claims.challenge_version,
                raw_score,
                ability_held(before.engine->0),
                verdict,
            ),
        ),
        ..before
    })
}

/// What responding to a session does. A response that is not admitted, or that
/// finds the session closed, leaves it as it was, the engine's session with it; one
/// that the engine refuses adds no response and moves no estimate.
pub open spec fn responds(
    before: ActorView,
    after: ActorView,
    claims: ItemRefClaims,
    submission_id: Seq<char>,
    raw_score: Real,
    r: ServiceResult<ResponseOutcome>,
) -> bool {
    match before.refusal(claims) {
        Some(refusal) => r matches Err(error) && reports_response(error, refusal) && after == before,
        None => if before.engine is None {
            r matches Err(error) && error.is_internal("session already finalized"@) && after == before
        } else {
            match r {
                Err(error) => {
                    &&& after.engine is Some
                    &&& same_standing(after.engine->0, before.engine->0)
                    &&& after == (ActorView { engine: after.engine, ..before })
                    &&& exists|refusal: EngineError| #[trigger] reports_engine(error, refusal)
                },
                Ok(outcome) => exists|verdict: EngineVerdict, terminated: bool, reason: Option<String>|
                    #[trigger]
                    takes(
                        before,
                        after,
                        claims,
                        submission_id,
                        raw_score,
                        outcome,
                        verdict,
                        terminated,
                        reason,
                    ),
            }
        },
    }
}

/// What asking for a session's state leads to: the estimate and the responses that
/// the engine holds, and what its terminator says of them.
pub open spec fn shows_session(actor: ActorView, r: ServiceResult<SessionSnapshot>) -> bool {
    match actor.engine {
        None => r matches Err(error) && error.is_internal("session already finalized"@),
        Some(engine) => r matches Ok(snapshot) && exists|
            state: EngineState,
            terminated: bool,
            remaining: Option<usize>,
            reason: Option<String>,
        | #[trigger]
            is_described(
                snapshot,
                actor.session_id,
                state,
                terminated,
                remaining,
                reason,
                actor.finalized,
                actor.awaiting is Some,
            ) && state.ability == ability_held(engine) && state.standard_error == error_held(engine)
                && state.responses == answers_held(engine).len(),
    }
}

/// What a session that is closed leaves behind: its result is what the engine held
/// of it, with the history of its responses, and its engine is gone.
pub open spec fn ends(
    before: ActorView,
    after: ActorView,
    elapsed_ms: u64,
    dto: SessionResultDto,
    result: EngineResult,
) -> bool {
    &&& is_concluded(dto, before.session_id, result, elapsed_ms, before.history)
    &&& result.ability == ability_held(before.engine->0)
    &&& result.standard_error == error_held(before.engine->0)
    &&& result.items == answers_held(before.engine->0).len()
    &&& after == (ActorView {
        engine: None,
        finalized: true,
        history: Seq::empty(),
        ..before
    })
}

/// What closing a session does.
pub open spec fn closes(
    before: ActorView,
    after: ActorView,
    elapsed_ms: u64,
    r: ServiceResult<SessionResultDto>,
) -> bool {
    if before.engine is None {
        r matches Err(error) && error.is_internal("session already finalized"@) && after == before
    } else {
        r matches Ok(dto) && exists|result: EngineResult| #[trigger]
            ends(before, after, elapsed_ms, dto, result)
    }
}

impl Actor {
    /// Take a session of the engine into service.
    pub fn new(
        session_id: String,
        mode: ProgrammingMode,
        session: Session,
        signer: ItemRefSigner,
    ) -> (r: Self)
        ensures
            r@ == ActorView::opened(session_id@, mode, session, signer@),
    {
        Actor {
            session_id,
            mode,
            session: Some(session),
            signer,
            awaiting: None,
            history: Vec::new(),
            finalized: false,
        }
    }

    /// Editor the session is practised in.
    pub fn mode(&self) -> (r: ProgrammingMode)
        ensures
            r == self@.mode,
    {
        self.mode
    }

    /// Ask for the next item. One that awaits a response is handed out again;
    /// otherwise the engine selects, unless the session is over.
    pub fn choose_item(&mut self) -> (r: ServiceResult<Choice>)
        ensures
            chooses(old(self)@, final(self)@, r),
    {
        match &self.awaiting {
            Some((_, item)) => {
                return Ok(Choice::Pending(item.clone()));
            },
            None => {},
        }
        if self.finalized {
            return Err(ServiceError::SessionTerminated);
        }
        match &mut self.session {
            None => Err(ServiceError::Internal("session already finalized")),
            Some(session) => {
                let stop = engine_should_stop(session);
                if stop {
                    let r = after_selection(true, Ok(()), None, None);
                    assert(follows_selection(r, true, Ok(()), None, None));
                    return r;
                }
                let selected = match engine_select(session) {
                    Ok(_) => Ok(()),
                    Err(error) => Err(engine_error(error)),
                };
                let index = engine_selected(session);
                let remaining = engine_remaining(session);
                let r = after_selection(false, selected, index, remaining);
                assert(follows_selection(r, false, selected, index, remaining));
                r
            },
        }
    }

    /// What the reference to a selected item asserts. `served` is what the serve
    /// log holds under its index.
    pub fn claims_for(&self, index: usize, served: Option<&ServedItem>, now_ms: u64) -> (r:
        ServiceResult<ItemRefClaims>)
        ensures
            match served {
                None => r matches Err(error) && error.is_internal(
                    "serve log missing the selected item"@,
                ),
                Some(item) => r matches Ok(claims) && claims.session_id@ == self@.session_id
                    && claims.bank_index == index && claims.item_id == item.id
                    && claims.challenge_version == item.version && claims.issued_at == now_ms,
            },
    {
        match served {
            None => Err(ServiceError::Internal("serve log missing the selected item")),
            Some(item) => Ok(
                ItemRefClaims {
                    session_id: self.session_id.clone(),
                    bank_index: index,
                    item_id: item.id.clone(),
                    challenge_version: item.version,
                    issued_at: now_ms,
                },
            ),
        }
    }

    /// Issue a selected item: seal the encoded claims into its reference, and
    /// wait for the response.
    pub fn issue(&mut self, claims: ItemRefClaims, payload: &[u8], expected_remaining: Option<u32>) -> (r:
        NextItem)
        ensures
            r.item_ref@ == reference(old(self)@.key, payload@),
            r.challenge_id == claims.item_id,
            r.challenge_version == claims.challenge_version,
            r.expected_remaining == expected_remaining,
            final(self)@ == (ActorView { awaiting: Some((claims, r)), ..old(self)@ }),
    {
        let item = NextItem {
            item_ref: self.signer.sign(payload),
            challenge_id: claims.item_id.clone(),
            challenge_version: claims.challenge_version,
            expected_remaining,
        };
        let kept = item.clone();
        self.awaiting = Some((claims, kept));
        item
    }

    /// Whether a response with a reference is admitted.
    pub fn accepts(&self, claims: &ItemRefClaims) -> (r: ServiceResult<()>)
        ensures
            match self@.refusal(*claims) {
                None => r is Ok,
                Some(refusal) => r matches Err(error) && reports_response(error, refusal),
            },
    {
        if !same(claims.session_id.as_str(), self.session_id.as_str()) {
            return Err(ServiceError::ItemRefInvalid("issued to another session"));
        }
        match &self.awaiting {
            None => Err(ServiceError::SessionNotAwaitingResponse),
            Some((expected, _)) => {
                if expected.bank_index != claims.bank_index || !same(
                    expected.item_id.as_str(),
                    claims.item_id.as_str(),
                ) || expected.challenge_version != claims.challenge_version {
                    return Err(
                        ServiceError::ItemRefInvalid(
                            "does not match the item currently awaiting a response",
                        ),
                    );
                }
                Ok(())
            },
        }
    }

    /// Record a scored response. The score itself has to be where the engine's
    /// question looks it up by `submission_id` before this is called.
    ///
    /// An admitted response that the engine takes enters the history and frees
    /// the session for the next item; one that it refuses changes nothing here.
    pub fn respond(&mut self, claims: &ItemRefClaims, submission_id: &str, raw_score: Real) -> (r:
        ServiceResult<ResponseOutcome>)
        ensures
            responds(old(self)@, final(self)@, *claims, submission_id@, raw_score, r),
    {
        match self.accepts(claims) {
            Err(error) => {
                return Err(error);
            },
            Ok(_) => {},
        }
        let item_id = match &self.awaiting {
            Some((expected, _)) => expected.item_id.clone(),
            None => {
                return Err(ServiceError::SessionNotAwaitingResponse);
            },
        };
        let (theta_before, verdict, terminated, reason) = match &mut self.session {
            None => {
                return Err(ServiceError::Internal("session already finalized"));
            },
            Some(session) => {
                let state = engine_state(session);
                let verdict = match engine_submit(session, submission_id) {
                    Ok(verdict) => verdict,
                    Err(error) => {
                        return Err(map_session_error(engine_error(error)));
                    },
                };
                let terminated = engine_should_stop(session);
                let reason = engine_reason(session);
                (state.ability, verdict, terminated, reason)
            },
        };
        let ghost shown = verdict;
        let ghost why = reason;
        let (record, outcome) = answered(
            item_id,
            claims.challenge_version,
            raw_score,
            theta_before,
            verdict,
            terminated,
            reason,
        );
        self.history.push(record);
        self.awaiting = None;
        assert(takes(
            old(self)@,
            self@,
            *claims,
            submission_id@,
            raw_score,
            outcome,
            shown,
            terminated,
            why,
        ));
        Ok(outcome)
    }

    /// Current state of the session.
    pub fn snapshot(&self) -> (r: ServiceResult<SessionSnapshot>)
        ensures
            shows_session(self@, r),
    {
        match &self.session {
            None => Err(ServiceError::Internal("session already finalized")),
            Some(session) => {
                let terminated = engine_should_stop(session);
                let state = engine_state(session);
                let remaining = engine_remaining(session);
                let reason = engine_reason(session);
                let ghost why = reason;
                let snapshot = describe(
                    self.session_id.clone(),
                    state,
                    terminated,
                    remaining,
                    reason,
                    self.finalized,
                    self.awaiting.is_some(),
                );
                assert(is_described(
                    snapshot,
                    self@.session_id,
                    state,
                    terminated,
                    remaining,
                    why,
                    self@.finalized,
                    self@.awaiting is Some,
                ));
                Ok(snapshot)
            },
        }
    }

    /// Close the session and issue its result. It closes once.
    pub fn finalize(&mut self, elapsed_ms: u64) -> (r: ServiceResult<SessionResultDto>)
        ensures
            closes(old(self)@, final(self)@, elapsed_ms, r),
    {
        let mut session: Option<Session> = None;
        std::mem::swap(&mut session, &mut self.session);
        match session {
            None => {
                assert(self@ =~= old(self)@);
                Err(ServiceError::Internal("session already finalized"))
            },
            Some(session) => {
                let result = engine_close(session);
                self.finalized = true;
                let mut items: Vec<SessionItemRecord> = Vec::new();
                std::mem::swap(&mut items, &mut self.history);
                assert(self@ =~= ActorView {
                    engine: None,
                    finalized: true,
                    history: Seq::empty(),
                    ..old(self)@
                });
                let ghost reported = result;
                let dto = concluded(self.session_id.clone(), result, elapsed_ms, items);
                let r: ServiceResult<SessionResultDto> = Ok(dto);
                assert(ends(old(self)@, self@, elapsed_ms, r->Ok_0, reported));
                r
            },
        }
    }
}

struct Entry {
    actor: Actor,
    last_seen: u64,
}

/// Tracks live sessions.
pub struct SessionRegistry {
    sessions: TextMap<Entry>,
}

/// A live session: what it holds, and when it was last used.
pub struct SeenView {
    /// The session.
    pub actor: ActorView,
    /// Server time of the last operation.
    pub last_seen: u64,
}

/// Whether a session was left alone for longer than a timeout.
pub open spec fn is_stale(session: SeenView, now_ms: u64, idle_timeout_ms: u64) -> bool {
    now_ms > session.last_seen && now_ms - session.last_seen > idle_timeout_ms
}

/// Live sessions once one of them was used.
pub open spec fn seen_at(
    sessions: Map<Seq<char>, SeenView>,
    session_id: Seq<char>,
    now_ms: u64,
) -> Map<Seq<char>, SeenView> {
    sessions.insert(session_id, SeenView { last_seen: now_ms, ..sessions[session_id] })
}

impl View for SessionRegistry {
    type V = Map<Seq<char>, SeenView>;

    closed spec fn view(&self) -> Map<Seq<char>, SeenView> {
        self.sessions@.map_values(
            |entry: Entry| SeenView { actor: entry.actor@, last_seen: entry.last_seen },
        )
    }
}

impl SessionRegistry {
    /// An empty registry.
    pub fn new() -> (r: Self)
        ensures
            r@ == Map::<Seq<char>, SeenView>::empty(),
    {
        let r = SessionRegistry { sessions: TextMap::new() };
        assert(r@ =~= Map::<Seq<char>, SeenView>::empty());
        r
    }

    /// Register a session.
    pub fn create(&mut self, session_id: &str, actor: Actor, created_at_ms: u64)
        ensures
            final(self)@ == old(self)@.insert(
                session_id@,
                SeenView { actor: actor@, last_seen: created_at_ms },
            ),
    {
        self.sessions.insert(session_id.to_owned(), Entry { actor, last_seen: created_at_ms });
        assert(self@ =~= old(self)@.insert(
            session_id@,
            SeenView { actor: actor@, last_seen: created_at_ms },
        ));
    }

    /// Mark a session as active at `now_ms`.
    pub fn touch(&mut self, session_id: &str, now_ms: u64) -> (r: ServiceResult<()>)
        ensures
            if old(self)@.contains_key(session_id@) {
                r is Ok && final(self)@ == seen_at(old(self)@, session_id@, now_ms)
            } else {
                r matches Err(error) && error.is_session_not_found(session_id@) && final(self)@ == old(self)@
            },
    {
        match self.take(session_id) {
            Some((actor, _)) => {
                self.create(session_id, actor, now_ms);
                assert(self@ =~= old(self)@.insert(
                    session_id@,
                    SeenView { last_seen: now_ms, ..old(self)@[session_id@] },
                ));
                Ok(())
            },
            None => {
                assert(self@ =~= old(self)@);
                Err(ServiceError::SessionNotFound(session_id.to_owned()))
            },
        }
    }

    /// Look a session up.
    pub fn get(&self, session_id: &str) -> (r: ServiceResult<&Actor>)
        ensures
            if self@.contains_key(session_id@) {
                r matches Ok(actor) && actor@ == self@[session_id@].actor
            } else {
                r matches Err(error) && error.is_session_not_found(session_id@)
            },
    {
        match self.sessions.get(session_id) {
            Some(entry) => Ok(&entry.actor),
            None => Err(ServiceError::SessionNotFound(session_id.to_owned())),
        }
    }

    /// Take a session out of the registry, to work on it or to let it go.
    fn take(&mut self, session_id: &str) -> (r: Option<(Actor, u64)>)
        ensures
            final(self)@ == old(self)@.remove(session_id@),
            match r {
                Some((actor, last_seen)) => old(self)@.contains_key(session_id@) && old(self)@[session_id@] == (SeenView { actor: actor@, last_seen }),
                None => !old(self)@.contains_key(session_id@),
            },
    {
        let taken = self.sessions.remove(session_id);
        assert(self@ =~= old(self)@.remove(session_id@));
        match taken {
            Some(entry) => Some((entry.actor, entry.last_seen)),
            None => None,
        }
    }

    /// Ask a session for the next item.
    pub fn choose_item(&mut self, session_id: &str, now_ms: u64) -> (r: ServiceResult<Choice>)
        ensures
            if old(self)@.contains_key(session_id@) {
                final(self)@.contains_key(session_id@) && chooses(
                    old(self)@[session_id@].actor,
                    final(self)@[session_id@].actor,
                    r,
                ) && final(self)@ == old(self)@.insert(
                    session_id@,
                    SeenView { actor: final(self)@[session_id@].actor, last_seen: now_ms },
                )
            } else {
                r matches Err(error) && error.is_session_not_found(session_id@) && final(self)@
                    == old(self)@
            },
    {
        match self.take(session_id) {
            Some((actor, _)) => {
                let mut actor = actor;
                let r = actor.choose_item();
                let ghost after = actor@;
                self.create(session_id, actor, now_ms);
                assert(self@ =~= old(self)@.insert(
                    session_id@,
                    SeenView { actor: after, last_seen: now_ms },
                ));
                r
            },
            None => {
                assert(self@ =~= old(self)@);
                Err(ServiceError::SessionNotFound(session_id.to_owned()))
            },
        }
    }

    /// Issue an item that a session selected.
    pub fn issue(
        &mut self,
        session_id: &str,
        claims: ItemRefClaims,
        payload: &[u8],
        expected_remaining: Option<u32>,
    ) -> (r: ServiceResult<NextItem>)
        ensures
            if old(self)@.contains_key(session_id@) {
                let before = old(self)@[session_id@];
                r matches Ok(item) && item.item_ref@ == reference(before.actor.key, payload@)
                    && item.challenge_id == claims.item_id && item.challenge_version
                    == claims.challenge_version && item.expected_remaining == expected_remaining
                    && final(self)@ == old(self)@.insert(
                    session_id@,
                    SeenView {
                        actor: ActorView { awaiting: Some((claims, item)), ..before.actor },
                        ..before
                    },
                )
            } else {
                r matches Err(error) && error.is_session_not_found(session_id@) && final(self)@
                    == old(self)@
            },
    {
        match self.take(session_id) {
            Some((actor, last_seen)) => {
                let mut actor = actor;
                let item = actor.issue(claims, payload, expected_remaining);
                let ghost after = actor@;
                self.create(session_id, actor, last_seen);
                assert(self@ =~= old(self)@.insert(session_id@, SeenView { actor: after, last_seen }));
                Ok(item)
            },
            None => {
                assert(self@ =~= old(self)@);
                Err(ServiceError::SessionNotFound(session_id.to_owned()))
            },
        }
    }

    /// Record a scored response with a session.
    pub fn respond(
        &mut self,
        session_id: &str,
        claims: &ItemRefClaims,
        submission_id: &str,
        raw_score: Real,
        now_ms: u64,
    ) -> (r: ServiceResult<ResponseOutcome>)
        ensures
            if old(self)@.contains_key(session_id@) {
                final(self)@.contains_key(session_id@) && responds(
                    old(self)@[session_id@].actor,
                    final(self)@[session_id@].actor,
                    *claims,
                    submission_id@,
                    raw_score,
                    r,
                ) && final(self)@ == old(self)@.insert(
                    session_id@,
                    SeenView { actor: final(self)@[session_id@].actor, last_seen: now_ms },
                )
            } else {
                r matches Err(error) && error.is_session_not_found(session_id@) && final(self)@
                    == old(self)@
            },
    {
        match self.take(session_id) {
            Some((actor, _)) => {
                let mut actor = actor;
                let r = actor.respond(claims, submission_id, raw_score);
                let ghost after = actor@;
                self.create(session_id, actor, now_ms);
                assert(self@ =~= old(self)@.insert(
                    session_id@,
                    SeenView { actor: after, last_seen: now_ms },
                ));
                r
            },
            None => {
                assert(self@ =~= old(self)@);
                Err(ServiceError::SessionNotFound(session_id.to_owned()))
            },
        }
    }

    /// Current state of a session.
    pub fn snapshot(&mut self, session_id: &str, now_ms: u64) -> (r: ServiceResult<SessionSnapshot>)
        ensures
            if old(self)@.contains_key(session_id@) {
                shows_session(old(self)@[session_id@].actor, r) && final(self)@ == seen_at(
                    old(self)@,
                    session_id@,
                    now_ms,
                )
            } else {
                r matches Err(error) && error.is_session_not_found(session_id@) && final(self)@
                    == old(self)@
            },
    {
        match self.touch(session_id, now_ms) {
            Err(error) => Err(error),
            Ok(_) => {
                let actor = self.get(session_id)?;
                actor.snapshot()
            },
        }
    }

    /// Close a session and forget it.
    pub fn finalize(&mut self, session_id: &str, elapsed_ms: u64, now_ms: u64) -> (r: ServiceResult<
        SessionResultDto,
    >)
        ensures
            if old(self)@.contains_key(session_id@) {
                let before = old(self)@[session_id@].actor;
                if before.engine is Some {
                    final(self)@ == old(self)@.remove(session_id@) && exists|after: ActorView| #[trigger]
                        closes(before, after, elapsed_ms, r)
                } else {
                    r matches Err(error) && error.is_internal("session already finalized"@)
                        && final(self)@ == seen_at(old(self)@, session_id@, now_ms)
                }
            } else {
                r matches Err(error) && error.is_session_not_found(session_id@) && final(self)@
                    == old(self)@
            },
    {
        match self.take(session_id) {
            Some((actor, _)) => {
                let mut actor = actor;
                let ghost before = actor@;
                let r = actor.finalize(elapsed_ms);
                assert(closes(before, actor@, elapsed_ms, r));
                if r.is_err() {
                    self.create(session_id, actor, now_ms);
                    assert(self@ =~= seen_at(old(self)@, session_id@, now_ms));
                }
                r
            },
            None => {
                assert(self@ =~= old(self)@);
                Err(ServiceError::SessionNotFound(session_id.to_owned()))
            },
        }
    }

    /// Forget a session.
    pub fn remove(&mut self, session_id: &str)
        ensures
            final(self)@ == old(self)@.remove(session_id@),
    {
        let _dropped = self.take(session_id);
    }

    /// Drop sessions idle for longer than `idle_timeout_ms`, and name them. An
    /// abandoned browser tab would otherwise pin a session forever.
    pub fn evict_idle(&mut self, now_ms: u64, idle_timeout_ms: u64) -> (r: Vec<String>)
        ensures
            forall|id: Seq<char>| #![trigger old(self)@.contains_key(id)]
                stale_among(r@, id) <==> old(self)@.contains_key(id) && is_stale(
                    old(self)@[id],
                    now_ms,
                    idle_timeout_ms,
                ),
            named_once(r@),
            final(self)@ == old(self)@.remove_keys(
                Set::new(|id: Seq<char>| old(self)@.contains_key(id) && is_stale(
                    old(self)@[id],
                    now_ms,
                    idle_timeout_ms,
                )),
            ),
    {
        let count: usize = self.sessions.len();
        let ghost before = self@;
        let ghost keys = self.sessions.keys();
        let mut stale: Vec<String> = Vec::new();
        for i in 0..count
            invariant
                self@ == before,
                keys == self.sessions.keys(),
                count == keys.len(),
                forall|p: int| 0 <= p < keys.len() ==> before.contains_key(#[trigger] keys[p]),
                forall|p: int|
                    0 <= p < i && is_stale(before[#[trigger] keys[p]], now_ms, idle_timeout_ms)
                        ==> stale_among(stale@, keys[p]),
                forall|q: int| 0 <= q < stale@.len() ==> before.contains_key(#[trigger] stale@[q]@)
                    && is_stale(before[stale@[q]@], now_ms, idle_timeout_ms),
                keys.no_duplicates(),
                forall|q: int| 0 <= q < stale@.len() ==> keys.take(i as int).contains(
                    #[trigger] stale@[q]@,
                ),
                named_once(stale@),
        {
            let ghost done = keys.take(i as int);
            let ghost next = keys.take(i + 1);
            proof {
                assert(next =~= done.push(keys[i as int]));
                assert forall|id: Seq<char>| done.contains(id) implies #[trigger] next.contains(id) by {
                    let k = choose|k: int| 0 <= k < done.len() && done[k] == id;
                    assert(next[k] == id);
                }
                assert(next[i as int] == keys[i as int]);
                assert(!done.contains(keys[i as int]));
            }
            let seen: u64 = self.sessions.value_at(i).last_seen;
            let idle: u64 = if now_ms > seen {
                now_ms - seen
            } else {
                0
            };
            assert(before[keys[i as int]].last_seen == seen);
            if idle > idle_timeout_ms {
                let ghost earlier = stale@;
                stale.push(self.sessions.key_at(i).clone());
                assert forall|id: Seq<char>| stale_among(earlier, id) implies stale_among(stale@, id) by {
                    let q = choose|q: int| 0 <= q < earlier.len() && (#[trigger] earlier[q])@ == id;
                    assert(stale@[q]@ == id);
                }
                assert(stale@[earlier.len() as int]@ == keys[i as int]);
            }
        }
        proof {
            assert forall|id: Seq<char>| #![trigger before.contains_key(id)]
                stale_among(stale@, id) <==> before.contains_key(id) && is_stale(
                    before[id],
                    now_ms,
                    idle_timeout_ms,
                ) by {
                if before.contains_key(id) && is_stale(before[id], now_ms, idle_timeout_ms) {
                    assert(keys.to_set().contains(id));
                    let p = choose|p: int| 0 <= p < keys.len() && keys[p] == id;
                    assert(is_stale(before[keys[p]], now_ms, idle_timeout_ms));
                }
            }
        }
        let ghost gone = Set::new(
            |id: Seq<char>|
                before.contains_key(id) && is_stale(before[id], now_ms, idle_timeout_ms),
        );
        for i in 0..stale.len()
            invariant
                forall|id: Seq<char>| #[trigger]
                    self@.contains_key(id) <==> before.contains_key(id) && !stale_among(
                        stale@.take(i as int),
                        id,
                    ),
                forall|id: Seq<char>| #[trigger]
                    self@.contains_key(id) ==> self@[id] == before[id],
        {
            let ghost earlier = stale@.take(i as int);
            let ghost later = stale@.take(i + 1);
            self.remove(stale[i].as_str());
            assert forall|id: Seq<char>| stale_among(later, id) <==> stale_among(earlier, id) || id
                == stale@[i as int]@ by {
                if stale_among(later, id) {
                    let q = choose|q: int| 0 <= q < later.len() && (#[trigger] later[q])@ == id;
                    if q < i {
                        assert(earlier[q]@ == id);
                    }
                }
                if stale_among(earlier, id) {
                    let q = choose|q: int| 0 <= q < earlier.len() && (#[trigger] earlier[q])@ == id;
                    assert(later[q]@ == id);
                }
                assert(later[i as int]@ == stale@[i as int]@);
            }
        }
        assert(stale@.take(stale@.len() as int) =~= stale@);
        assert(self@ =~= before.remove_keys(gone));
        stale
    }

    /// Live session count.
    pub fn len(&self) -> (r: usize)
        ensures
            r == self@.len(),
    {
        let r: usize = self.sessions.len();
        assert(self@.dom() =~= self.sessions@.dom());
        r
    }

    /// Whether no sessions are live.
    pub fn is_empty(&self) -> (r: bool)
        ensures
            r == (self@.len() == 0),
    {
        self.len() == 0
    }
}

/// Whether no session is named twice.
pub open spec fn named_once(names: Seq<String>) -> bool {
    forall|i: int, j: int|
        0 <= i < j < names.len() ==> (#[trigger] names[i])@ != (#[trigger] names[j])@
}

/// Whether a session is named.
pub open spec fn stale_among(names: Seq<String>, id: Seq<char>) -> bool {
    exists|q: int| 0 <= q < names.len() && (#[trigger] names[q])@ == id
}

/// A session that was just used is not stale, whatever the timeout, and neither
/// is one used within the timeout.
pub proof fn law_a_used_session_is_kept(session: SeenView, now_ms: u64, idle_timeout_ms: u64)
    requires
        now_ms - session.last_seen <= idle_timeout_ms,
    ensures
        !is_stale(session, now_ms, idle_timeout_ms),
{
}

/// While an item awaits its response, exactly its own reference is admitted:
/// what the reference was issued with, whenever it was issued.
pub proof fn law_the_issued_reference_is_admitted(actor: ActorView, claims: ItemRefClaims, item: NextItem)
    requires
        claims.session_id@ == actor.session_id,
    ensures
        (ActorView { awaiting: Some((claims, item)), ..actor }).refusal(claims) is None,
        (ActorView { awaiting: None, ..actor }).refusal(claims) matches Some(
            ResponseRefusal::NotAwaiting,
        ),
{
}

/// Asking again before responding repeats the same item, and takes nothing more
/// from the bank: the engine's session is the one it was.
pub proof fn law_asking_again_repeats_the_item(
    before: ActorView,
    after: ActorView,
    claims: ItemRefClaims,
    item: NextItem,
    r: ServiceResult<Choice>,
)
    requires
        before.awaiting == Some((claims, item)),
        chooses(before, after, r),
    ensures
        r == Ok::<Choice, ServiceError>(Choice::Pending(item)),
        after.engine == before.engine,
        after == before,
{
}

/// A response counts once: the reference it was given with is refused afterwards,
/// until another item is issued.
pub proof fn law_a_response_counts_once(
    before: ActorView,
    after: ActorView,
    claims: ItemRefClaims,
    submission_id: Seq<char>,
    raw_score: Real,
    outcome: ResponseOutcome,
)
    requires
        responds(before, after, claims, submission_id, raw_score, Ok(outcome)),
    ensures
        after.history.len() == before.history.len() + 1,
        after.refusal(claims) matches Some(ResponseRefusal::NotAwaiting),
        outcome.raw_score == raw_score,
        answers_held(after.engine->0).len() == answers_held(before.engine->0).len() + 1,
{
}

/// A response that comes to nothing leaves the ability, the responses, the history
/// and the awaited item as they were; one that is not admitted does not even reach
/// the engine.
pub proof fn law_a_refused_response_moves_nothing(
    before: ActorView,
    after: ActorView,
    claims: ItemRefClaims,
    submission_id: Seq<char>,
    raw_score: Real,
    error: ServiceError,
)
    requires
        responds(before, after, claims, submission_id, raw_score, Err(error)),
    ensures
        after.awaiting == before.awaiting,
        after.history == before.history,
        before.engine is Some ==> after.engine is Some && same_standing(
            after.engine->0,
            before.engine->0,
        ),
        before.refusal(claims) is Some ==> after.engine == before.engine,
{
}

/// A session that was closed cannot be closed again.
pub proof fn law_a_session_closes_once(
    before: ActorView,
    after: ActorView,
    elapsed_ms: u64,
    result: SessionResultDto,
    later: ActorView,
    later_ms: u64,
    r: ServiceResult<SessionResultDto>,
)
    requires
        closes(before, after, elapsed_ms, Ok(result)),
        closes(after, later, later_ms, r),
    ensures
        r is Err,
        later == after,
{
}


/// An answer is taken only for the question that waits: the reference names this session, and the
/// place, the item and the version that were handed out. A reference for anything else is refused,
/// and a session in which nothing waits takes no answer at all.
pub proof fn law_only_the_waiting_item_is_answered(actor: ActorView, claims: ItemRefClaims)
    ensures
        actor.refusal(claims) is None <==> claims.session_id@ == actor.session_id && (
        actor.awaiting matches Some((expected, _)) && expected.bank_index == claims.bank_index
            && expected.item_id@ == claims.item_id@ && expected.challenge_version
            == claims.challenge_version),
        claims.session_id@ != actor.session_id ==> actor.refusal(claims) == Some(
            ResponseRefusal::OtherSession,
        ),
        claims.session_id@ == actor.session_id && actor.awaiting is None ==> actor.refusal(claims)
            == Some(ResponseRefusal::NotAwaiting),
        claims.session_id@ == actor.session_id && actor.awaiting is Some ==> actor.refusal(claims)
            is None || actor.refusal(claims) == Some(ResponseRefusal::OtherItem),
{
}

/// A session is idle too long once more than the whole timeout has passed since it was last used:
/// at the timeout itself it is still kept, one millisecond later it is not, and a clock that stands
/// behind the last use makes nothing stale.
pub proof fn law_sessions_are_kept_their_time(session: SeenView, now_ms: u64, idle_timeout_ms: u64)
    ensures
        session.last_seen + idle_timeout_ms >= now_ms ==> !is_stale(session, now_ms, idle_timeout_ms),
        session.last_seen + idle_timeout_ms < now_ms ==> is_stale(session, now_ms, idle_timeout_ms),
{
}

/// What a session reports of itself: one that was closed is finalized whatever else holds; one that
/// has ended is terminated though a question may wait; an open one awaits an answer exactly when a
/// question waits.
pub proof fn law_a_closed_session_says_so(finalized: bool, terminated: bool, awaiting: bool)
    ensures
        lifecycle(finalized, terminated, awaiting) is Finalized <==> finalized,
        lifecycle(finalized, terminated, awaiting) is Terminated <==> !finalized && terminated,
        !finalized && !terminated ==> (lifecycle(finalized, terminated, awaiting) is AwaitingResponse
            <==> awaiting),
        !finalized && !terminated ==> (lifecycle(finalized, terminated, awaiting) is Active
            <==> !awaiting),
{
}

/// An answer that is taken adds one line to the session's history, and the line tells the item and
/// version that were answered, the score given, and the ability before and after; the ability after
/// is the one the caller is told. Nothing waits afterwards, and earlier lines stay.
pub proof fn law_an_answer_is_written_down(
    before: ActorView,
    after: ActorView,
    claims: ItemRefClaims,
    submission_id: Seq<char>,
    raw_score: Real,
    outcome: ResponseOutcome,
)
    requires
        responds(before, after, claims, submission_id, raw_score, Ok(outcome)),
    ensures
        after.awaiting is None,
        after.history.len() == before.history.len() + 1,
        after.history.drop_last() == before.history,
        after.history.last().challenge_id@ == claims.item_id@,
        after.history.last().challenge_version == claims.challenge_version,
        after.history.last().raw_score == raw_score,
        after.history.last().theta_before == ability_held(before.engine->0),
        after.history.last().theta_after == ability_held(after.engine->0),
        outcome.theta == ability_held(after.engine->0),
        outcome.standard_error == error_held(after.engine->0),
        outcome.raw_score == raw_score,
        outcome.correct == after.history.last().correct,
        after.session_id == before.session_id,
        after.mode == before.mode,
        after.finalized == before.finalized,
{
    assert(after.history.drop_last() =~= before.history);
}

/// Closing a session hands over its whole history and the estimate it had reached, with the time it
/// took; the session is then finalized.
pub proof fn law_closing_hands_over_the_history(
    before: ActorView,
    after: ActorView,
    elapsed_ms: u64,
    dto: SessionResultDto,
)
    requires
        closes(before, after, elapsed_ms, Ok(dto)),
    ensures
        after.finalized,
        dto.items@ == before.history,
        dto.session_id@ == before.session_id,
        dto.duration_ms == elapsed_ms,
        dto.final_theta == ability_held(before.engine->0),
        dto.standard_error == error_held(before.engine->0),
        answers_held(before.engine->0).len() <= u32::MAX ==> dto.total_items
            == answers_held(before.engine->0).len(),
{
}

/// How a session goes unless it is told otherwise: at least four and at most twelve items, the first
/// two for warming up, until the standard error is down to 0.4; a learner is taken to stand at zero
/// with a spread of one; and items that discriminate less than 0.4 are left out.
pub proof fn law_the_usual_session()
    ensures
        SessionConfig::usual().min_items == 4,
        SessionConfig::usual().max_items == 12,
        SessionConfig::usual().warmup_items == 2,
        SessionConfig::usual().target_se.bits == 0x3fd9_9999_9999_999a,
        SessionConfig::usual().min_discrimination.bits == 0x3fd9_9999_9999_999a,
        SessionConfig::usual().prior_mean.bits == 0,
        SessionConfig::usual().prior_sd.bits == 0x3ff0_0000_0000_0000,
        SessionConfig::usual().tolerance.bits == 0x3ff0_0000_0000_0000,
{
}

/// What the engine refuses is told apart: a session that has ended, one in which nothing was asked
/// and a bank that has run out are three different errors, and none of them is an internal fault.
pub proof fn law_engine_refusals_are_told_apart(error: ServiceError)
    ensures
        reports_engine(error, EngineError::AlreadyTerminated) <==> error is SessionTerminated,
        reports_engine(error, EngineError::NoCurrentQuestion) <==> error is SessionNotAwaitingResponse,
        reports_engine(error, EngineError::NoQuestionAvailable) <==> error is BankExhausted,
{
}


/// A snapshot tells the estimate and the count that the engine holds; an error that is no finite
/// number is not shown.
pub proof fn law_a_snapshot_tells_what_the_engine_holds(actor: ActorView, snapshot: SessionSnapshot)
    requires
        shows_session(actor, Ok(snapshot)),
    ensures
        actor.engine is Some,
        snapshot.session_id@ == actor.session_id,
        snapshot.theta == ability_held(actor.engine->0),
        error_held(actor.engine->0).finite() ==> snapshot.standard_error == Some(
            error_held(actor.engine->0),
        ),
        !error_held(actor.engine->0).finite() ==> snapshot.standard_error is None,
        answers_held(actor.engine->0).len() <= u32::MAX ==> snapshot.response_count
            == answers_held(actor.engine->0).len(),
        actor.finalized <==> snapshot.state is Finalized,
        !actor.finalized && actor.awaiting is Some ==> snapshot.state is AwaitingResponse
            || snapshot.state is Terminated,
        !actor.finalized && actor.awaiting is None ==> snapshot.state is Active || snapshot.state
            is Terminated,
{
}

/// Looking for a next item changes nothing that was measured: answers and estimate stay, the history
/// stays, and a session that is closed hands out nothing new.
pub proof fn law_choosing_measures_nothing(
    before: ActorView,
    after: ActorView,
    r: ServiceResult<Choice>,
)
    requires
        chooses(before, after, r),
    ensures
        after.history == before.history,
        after.awaiting == before.awaiting,
        after.finalized == before.finalized,
        before.engine is Some && after.engine is Some ==> answers_held(after.engine->0) == answers_held(
            before.engine->0,
        ) && ability_held(after.engine->0) == ability_held(before.engine->0),
        before.finalized && before.awaiting is None ==> (r matches Err(ServiceError::SessionTerminated)),
        before.awaiting is None && !before.finalized && before.engine is None ==> r is Err,
{
}


/// What comes of looking for an item: a session that should stop says that it has ended; what the
/// engine refuses is told as such; and what it selects is handed out by its place, with the number of
/// items that are still expected.
pub proof fn law_what_the_engine_selects_is_handed_out(
    r: ServiceResult<Choice>,
    stop: bool,
    selected: Result<(), EngineError>,
    index: usize,
    remaining: Option<usize>,
)
    requires
        follows_selection(r, stop, selected, Some(index), remaining),
    ensures
        stop ==> (r matches Err(ServiceError::SessionTerminated)),
        !stop && selected is Ok ==> (r matches Ok(Choice::Selected { index: place, expected_remaining })
            && place == index && (remaining is None <==> expected_remaining is None) && (
        remaining is Some && remaining->0 <= u32::MAX ==> expected_remaining is Some
            && expected_remaining->0 == remaining->0)),
        !stop && selected == Err::<(), EngineError>(EngineError::NoQuestionAvailable) ==> (r matches Err(
            ServiceError::BankExhausted,
        )),
        !stop && selected == Err::<(), EngineError>(EngineError::AlreadyTerminated) ==> (r matches Err(
            ServiceError::SessionTerminated,
        )),
{
}

}
