//! Service failures, and how they become wire errors.

use crate::cutter::{CutterGridCoord, CutterGridPlanningErrorCodeV4, CutterGridPlanningStageV4};
use crate::domain::VoxelCoord;
use crate::text::{
    decimal_text, i32_of_text, integer_text, law_integers_read_back,
    law_pieces_are_split_at_separators, parse_i32, push_decimal, push_integer, split, split_text,
    texts_of,
};
use crate::wire::{HcrError, HcrErrorCode};
use vstd::prelude::*;

verus! {

/// Everything the service layer can fail with.
#[derive(Clone, Debug, PartialEq, Eq)]
pub enum ServiceError {
    /// No such challenge, or no such version of it.
    ChallengeNotFound {
        /// Which challenge was requested.
        challenge_id: String,
        /// Which version, when a specific one was asked for.
        version: Option<u32>,
    },
    /// The program failed validation. `field` locates the offending block so the
    /// editor can highlight it.
    ProgramInvalid {
        /// Human-readable reason.
        message: String,
        /// Originating editor block, when known.
        field: Option<String>,
    },
    /// Expansion exceeded the atomic-command cap.
    ProgramTooLarge {
        /// The cap.
        limit: usize,
    },
    /// The challenge's scoring block is unusable.
    WeightsInvalid(&'static str),
    /// A submitted trajectory did not survive verification.
    TrajectoryRejected {
        /// Machine-readable reason.
        rejection: String,
        /// Human-readable reason.
        message: String,
        /// Originating editor block, when known.
        field: Option<String>,
    },
    /// The server-side planner found no trajectory for the program.
    TrajectoryPlanningFailed {
        /// What went wrong.
        planner_code: CutterGridPlanningErrorCodeV4,
        /// Where in the pipeline.
        stage: CutterGridPlanningStageV4,
        /// Originating editor block, when known.
        field: Option<String>,
        /// Visible action that failed.
        action_index: Option<u32>,
        /// First action expanded beyond its initial candidate budget.
        expanded_action_index: Option<u32>,
        /// Cell the planner was trying to reach.
        target_coord: Option<CutterGridCoord>,
    },
    /// The item reference was forged, stale, or issued for something else.
    ItemRefInvalid(&'static str),
    /// No such session.
    SessionNotFound(String),
    /// The session has already terminated.
    SessionTerminated,
    /// The session is not expecting a response right now.
    SessionNotAwaitingResponse,
    /// The round has not reached the stage the request needs.
    MatchNotReady(&'static str),
    /// The bank could not supply an item.
    BankExhausted,
    /// Replay capacity is saturated.
    RateLimited,
    /// Replay exceeded its tick budget.
    ReplayTimeout,
    /// An invariant broke inside the service.
    Internal(&'static str),
}

/// Convenience alias.
pub type ServiceResult<T> = Result<T, ServiceError>;

/// A lattice coordinate as `x,y,z`.
pub open spec fn coord_text(coord: Seq<i32>) -> Seq<char> {
    integer_text(coord[0] as int).push(',') + integer_text(coord[1] as int).push(',') + integer_text(
        coord[2] as int,
    )
}

/// A lattice coordinate as `x,y,z`.
pub fn coord_key(x: i32, y: i32, z: i32) -> (r: String)
    ensures
        r@ == coord_text(seq![x, y, z]),
{
    let mut out: String = String::new();
    push_integer(&mut out, x as i64);
    out.push(',');
    push_integer(&mut out, y as i64);
    out.push(',');
    push_integer(&mut out, z as i64);
    assert(out@ =~= coord_text(seq![x, y, z]));
    out
}

/// The lattice coordinate that a text such as `1,-2,3` spells: three signed decimal
/// numbers between commas.
pub open spec fn coord_of_text(key: Seq<char>) -> Option<VoxelCoord> {
    let pieces = split_text(key, ',');
    if pieces.len() == 3 {
        match (i32_of_text(pieces[0]), i32_of_text(pieces[1]), i32_of_text(pieces[2])) {
            (Some(x), Some(y), Some(z)) => Some(VoxelCoord { x, y, z }),
            _ => None,
        }
    } else {
        None
    }
}

/// Read a lattice coordinate.
pub fn read_coord(key: &str) -> (r: Option<VoxelCoord>)
    ensures
        r == coord_of_text(key@),
{
    let pieces = split(key, ',');
    assert(texts_of(pieces@).len() == pieces@.len());
    if pieces.len() != 3 {
        return None;
    }
    assert(texts_of(pieces@)[0] == pieces@[0]@);
    assert(texts_of(pieces@)[1] == pieces@[1]@);
    assert(texts_of(pieces@)[2] == pieces@[2]@);
    match (parse_i32(pieces[0]), parse_i32(pieces[1]), parse_i32(pieces[2])) {
        (Some(x), Some(y), Some(z)) => Some(VoxelCoord { x, y, z }),
        _ => None,
    }
}

/// What names a coordinate reads back as that coordinate.
pub proof fn law_coordinates_read_back(x: i32, y: i32, z: i32)
    ensures
        coord_of_text(coord_text(seq![x, y, z])) == Some(VoxelCoord { x, y, z }),
{
    let (a, b, c) = (integer_text(x as int), integer_text(y as int), integer_text(z as int));
    law_integers_read_back(x);
    law_integers_read_back(y);
    law_integers_read_back(z);
    law_pieces_are_split_at_separators(Seq::empty(), a, ',');
    law_pieces_are_split_at_separators(a, b, ',');
    law_pieces_are_split_at_separators(a.push(',') + b, c, ',');
    assert(coord_text(seq![x, y, z]) =~= (a.push(',') + b).push(',') + c);
}

/// Keys and values of an error's context, in order.
pub open spec fn details_view(details: Seq<(String, String)>) -> Seq<(Seq<char>, Seq<char>)> {
    Seq::new(details.len(), |i: int| (details[i].0@, details[i].1@))
}

/// One context entry when there is a value for it, none otherwise.
pub open spec fn detail(key: Seq<char>, value: Option<Seq<char>>) -> Seq<(Seq<char>, Seq<char>)> {
    match value {
        Some(text) => seq![(key, text)],
        None => Seq::empty(),
    }
}

impl ServiceError {
    /// No session or round of this identity.
    pub open spec fn is_session_not_found(self, id: Seq<char>) -> bool {
        self matches ServiceError::SessionNotFound(found) && found@ == id
    }

    /// No challenge of this identity, at the version asked for.
    pub open spec fn is_challenge_not_found(self, id: Seq<char>, asked: Option<u32>) -> bool {
        self matches ServiceError::ChallengeNotFound { challenge_id, version } && challenge_id@ == id
            && version == asked
    }

    /// The round is not at the stage the request needs, for this reason.
    pub open spec fn is_match_not_ready(self, reason: Seq<char>) -> bool {
        self matches ServiceError::MatchNotReady(why) && why@ == reason
    }

    /// An item reference is invalid, for this reason.
    pub open spec fn is_item_ref_invalid(self, reason: Seq<char>) -> bool {
        self matches ServiceError::ItemRefInvalid(why) && why@ == reason
    }

    /// An internal fault, for this reason.
    pub open spec fn is_internal(self, reason: Seq<char>) -> bool {
        self matches ServiceError::Internal(why) && why@ == reason
    }

    /// The wire code of a failure.
    pub open spec fn wire_code(self) -> HcrErrorCode {
        match self {
            ServiceError::ChallengeNotFound { .. } => HcrErrorCode::ChallengeNotFound,
            ServiceError::ProgramInvalid { .. } => HcrErrorCode::ProgramInvalid,
            ServiceError::ProgramTooLarge { .. } => HcrErrorCode::ProgramTooLarge,
            ServiceError::WeightsInvalid(_) => HcrErrorCode::WeightsInvalid,
            ServiceError::TrajectoryRejected { .. } => HcrErrorCode::TrajectoryRejected,
            ServiceError::TrajectoryPlanningFailed { .. } => HcrErrorCode::TrajectoryPlanningFailed,
            ServiceError::ItemRefInvalid(_) => HcrErrorCode::ItemRefInvalid,
            ServiceError::SessionNotFound(_) => HcrErrorCode::SessionNotFound,
            ServiceError::SessionTerminated => HcrErrorCode::SessionTerminated,
            ServiceError::SessionNotAwaitingResponse => HcrErrorCode::SessionTerminated,
            ServiceError::MatchNotReady(_) => HcrErrorCode::MatchNotReady,
            ServiceError::BankExhausted => HcrErrorCode::BankExhausted,
            ServiceError::RateLimited => HcrErrorCode::RateLimited,
            ServiceError::ReplayTimeout => HcrErrorCode::ReplayTimeout,
            ServiceError::Internal(_) => HcrErrorCode::Internal,
        }
    }

    /// The sentence shown for a failure.
    pub open spec fn sentence(self) -> Seq<char> {
        match self {
            ServiceError::ChallengeNotFound { challenge_id, version } => match version {
                Some(v) => "Challenge \""@ + challenge_id@ + "\" version "@ + decimal_text(v as nat)
                    + " was not found."@,
                None => "Challenge \""@ + challenge_id@ + "\" was not found."@,
            },
            ServiceError::ProgramInvalid { message, .. } => message@,
            ServiceError::ProgramTooLarge { limit } => "The expanded program exceeds "@ + decimal_text(
                limit as nat,
            ) + " atomic commands."@,
            ServiceError::WeightsInvalid(reason) => reason@,
            ServiceError::TrajectoryRejected { message, .. } => message@,
            ServiceError::TrajectoryPlanningFailed { planner_code, .. } =>
                "The program could not be planned: "@ + planner_code.spelling() + "."@,
            ServiceError::ItemRefInvalid(reason) => "Invalid item reference: "@ + reason@ + "."@,
            ServiceError::SessionNotFound(id) => "Session \""@ + id@ + "\" was not found."@,
            ServiceError::SessionTerminated => "The session has already terminated."@,
            ServiceError::SessionNotAwaitingResponse => "The session is not awaiting a response."@,
            ServiceError::MatchNotReady(reason) => reason@,
            ServiceError::BankExhausted => "The question bank has no suitable item available."@,
            ServiceError::RateLimited => "Replay capacity is saturated; retry shortly."@,
            ServiceError::ReplayTimeout => "Replay exceeded its budget."@,
            ServiceError::Internal(reason) => "Internal service error: "@ + reason@,
        }
    }

    /// The block a failure is attributed to.
    pub open spec fn block(self) -> Option<Seq<char>> {
        match self {
            ServiceError::ProgramInvalid { field: Some(field), .. } => Some(field@),
            ServiceError::TrajectoryRejected { field: Some(field), .. } => Some(field@),
            ServiceError::TrajectoryPlanningFailed { field: Some(field), .. } => Some(field@),
            _ => None,
        }
    }

    /// Machine-readable context of a failure, keys in ascending order.
    pub open spec fn context(self) -> Option<Seq<(Seq<char>, Seq<char>)>> {
        match self {
            ServiceError::TrajectoryRejected { rejection, .. } => Some(
                seq![("rejection"@, rejection@)],
            ),
            ServiceError::TrajectoryPlanningFailed {
                planner_code,
                stage,
                action_index,
                expanded_action_index,
                target_coord,
                ..
            } => Some(
                detail("actionIndex"@, optional_decimal(action_index)) + detail(
                    "expandedActionIndex"@,
                    optional_decimal(expanded_action_index),
                ) + seq![("plannerCode"@, planner_code.spelling()), ("stage"@, stage.spelling())]
                    + detail(
                    "targetCoord"@,
                    match target_coord {
                        Some(coord) => Some(coord_text(coord@)),
                        None => None,
                    },
                ),
            ),
            _ => None,
        }
    }

    /// Map to the wire error code.
    pub fn code(&self) -> (r: HcrErrorCode)
        ensures
            r == self.wire_code(),
    {
        match self {
            ServiceError::ChallengeNotFound { .. } => HcrErrorCode::ChallengeNotFound,
            ServiceError::ProgramInvalid { .. } => HcrErrorCode::ProgramInvalid,
            ServiceError::ProgramTooLarge { .. } => HcrErrorCode::ProgramTooLarge,
            ServiceError::WeightsInvalid(_) => HcrErrorCode::WeightsInvalid,
            ServiceError::TrajectoryRejected { .. } => HcrErrorCode::TrajectoryRejected,
            ServiceError::TrajectoryPlanningFailed { .. } => HcrErrorCode::TrajectoryPlanningFailed,
            ServiceError::ItemRefInvalid(_) => HcrErrorCode::ItemRefInvalid,
            ServiceError::SessionNotFound(_) => HcrErrorCode::SessionNotFound,
            ServiceError::SessionTerminated | ServiceError::SessionNotAwaitingResponse =>
                HcrErrorCode::SessionTerminated,
            ServiceError::MatchNotReady(_) => HcrErrorCode::MatchNotReady,
            ServiceError::BankExhausted => HcrErrorCode::BankExhausted,
            ServiceError::RateLimited => HcrErrorCode::RateLimited,
            ServiceError::ReplayTimeout => HcrErrorCode::ReplayTimeout,
            ServiceError::Internal(_) => HcrErrorCode::Internal,
        }
    }

    /// The failure in one sentence.
    pub fn message(&self) -> (r: String)
        ensures
            r@ == self.sentence(),
    {
        match self {
            ServiceError::ChallengeNotFound { challenge_id, version } => {
                let mut out: String = "Challenge \"".to_owned();
                out.append(challenge_id.as_str());
                match version {
                    Some(v) => {
                        out.append("\" version ");
                        push_decimal(&mut out, *v as u64);
                        out.append(" was not found.");
                    },
                    None => {
                        out.append("\" was not found.");
                    },
                }
                out
            },
            ServiceError::ProgramInvalid { message, .. } => message.clone(),
            ServiceError::ProgramTooLarge { limit } => {
                let mut out: String = "The expanded program exceeds ".to_owned();
                push_decimal(&mut out, *limit as u64);
                out.append(" atomic commands.");
                out
            },
            ServiceError::WeightsInvalid(reason) => (*reason).to_owned(),
            ServiceError::TrajectoryRejected { message, .. } => message.clone(),
            ServiceError::TrajectoryPlanningFailed { planner_code, .. } => {
                let mut out: String = "The program could not be planned: ".to_owned();
                out.append(planner_code.as_str());
                out.append(".");
                out
            },
            ServiceError::ItemRefInvalid(reason) => {
                let mut out: String = "Invalid item reference: ".to_owned();
                out.append(*reason);
                out.append(".");
                out
            },
            ServiceError::SessionNotFound(id) => {
                let mut out: String = "Session \"".to_owned();
                out.append(id.as_str());
                out.append("\" was not found.");
                out
            },
            ServiceError::SessionTerminated => "The session has already terminated.".to_owned(),
            ServiceError::SessionNotAwaitingResponse => "The session is not awaiting a response.".to_owned(),
            ServiceError::MatchNotReady(reason) => (*reason).to_owned(),
            ServiceError::BankExhausted => "The question bank has no suitable item available.".to_owned(),
            ServiceError::RateLimited => "Replay capacity is saturated; retry shortly.".to_owned(),
            ServiceError::ReplayTimeout => "Replay exceeded its budget.".to_owned(),
            ServiceError::Internal(reason) => {
                let mut out: String = "Internal service error: ".to_owned();
                out.append(*reason);
                out
            },
        }
    }
}

/// The decimal spelling of a number that is there.
pub open spec fn optional_decimal(value: Option<u32>) -> Option<Seq<char>> {
    match value {
        Some(n) => Some(decimal_text(n as nat)),
        None => None,
    }
}


/// An optional text, by its characters.
pub open spec fn optional_text(value: Option<String>) -> Option<Seq<char>> {
    match value {
        Some(text) => Some(text@),
        None => None,
    }
}

fn decimal_string(n: u32) -> (r: String)
    ensures
        r@ == decimal_text(n as nat),
{
    let mut out: String = String::new();
    push_decimal(&mut out, n as u64);
    assert(out@ =~= decimal_text(n as nat));
    out
}

fn push_detail(details: &mut Vec<(String, String)>, key: &str, value: Option<String>)
    ensures
        details_view(final(details)@) == details_view(old(details)@) + detail(
            key@,
            optional_text(value),
        ),
{
    let ghost before = details@;
    match value {
        Some(text) => {
            details.push((key.to_owned(), text));
            assert(details_view(details@) =~= details_view(before) + detail(
                key@,
                optional_text(value),
            ));
        },
        None => {
            assert(details_view(details@) =~= details_view(before) + detail(
                key@,
                optional_text(value),
            ));
        },
    }
}

impl ServiceError {
    /// The block to highlight, when the failure names one.
    fn attributed_block(&self) -> (r: Option<String>)
        ensures
            optional_text(r) == self.block(),
    {
        match self {
            ServiceError::ProgramInvalid { field: Some(field), .. } => Some(field.clone()),
            ServiceError::TrajectoryRejected { field: Some(field), .. } => Some(field.clone()),
            ServiceError::TrajectoryPlanningFailed { field: Some(field), .. } => Some(field.clone()),
            _ => None,
        }
    }

    /// Machine-readable context, when the failure carries some.
    fn attached_context(&self) -> (r: Option<Vec<(String, String)>>)
        ensures
            match r {
                Some(details) => self.context() == Some(details_view(details@)),
                None => self.context() is None,
            },
    {
        match self {
            ServiceError::TrajectoryRejected { rejection, .. } => {
                let mut details: Vec<(String, String)> = Vec::new();
                push_detail(&mut details, "rejection", Some(rejection.clone()));
                assert(details_view(details@) =~= seq![("rejection"@, rejection@)]);
                Some(details)
            },
            ServiceError::TrajectoryPlanningFailed {
                planner_code,
                stage,
                action_index,
                expanded_action_index,
                target_coord,
                ..
            } => {
                let mut details: Vec<(String, String)> = Vec::new();
                let action = match action_index {
                    Some(n) => Some(decimal_string(*n)),
                    None => None,
                };
                let expanded = match expanded_action_index {
                    Some(n) => Some(decimal_string(*n)),
                    None => None,
                };
                let target = match target_coord {
                    Some(coord) => {
                        assert(seq![coord@[0], coord@[1], coord@[2]] =~= coord@);
                        Some(coord_key(coord[0], coord[1], coord[2]))
                    },
                    None => None,
                };
                push_detail(&mut details, "actionIndex", action);
                push_detail(&mut details, "expandedActionIndex", expanded);
                push_detail(&mut details, "plannerCode", Some(planner_code.as_str().to_owned()));
                push_detail(&mut details, "stage", Some(stage.as_str().to_owned()));
                push_detail(&mut details, "targetCoord", target);
                assert(self.context() == Some(details_view(details@))) by {
                    assert(self.context()->0 =~= details_view(details@));
                }
                Some(details)
            },
            _ => None,
        }
    }

    /// Render as the wire error shape.
    pub fn to_wire(&self) -> (r: HcrError)
        ensures
            r.code == self.wire_code(),
            r.message@ == self.sentence(),
            r.retryable == self.wire_code().may_retry(),
            optional_text(r.field) == self.block(),
            match r.details {
                Some(details) => self.context() == Some(details_view(details@)),
                None => self.context() is None,
            },
    {
        let plain = HcrError::new(self.code(), self.message());
        let attributed = match self.attributed_block() {
            Some(field) => plain.with_field(field),
            None => plain,
        };
        HcrError {
            code: attributed.code,
            message: attributed.message,
            retryable: attributed.retryable,
            field: attributed.field,
            details: self.attached_context(),
        }
    }
}

/// A failed run of the replay engine, reduced to what a caller is told.
#[derive(Clone, Debug, PartialEq, Eq)]
pub enum SimError {
    /// Expansion exceeded the atomic-command cap.
    CommandLimitExceeded {
        /// The cap.
        limit: usize,
    },
    /// Nothing to run.
    EmptyProgram,
    /// A command names a joint the arm does not have.
    UnknownJoint {
        /// The joint named.
        joint_id: String,
        /// The engine's explanation.
        message: String,
    },
    /// A command drives a joint beyond its travel.
    AngleOutOfRange {
        /// The joint driven.
        joint_id: String,
        /// The engine's explanation.
        message: String,
    },
    /// A wait has no usable duration.
    InvalidWait {
        /// The engine's explanation.
        message: String,
    },
    /// The arm lacks a joint the kinematics needs.
    MissingJoint {
        /// The engine's explanation.
        message: String,
    },
    /// The scoring block is unusable.
    InvalidScoring(&'static str),
    /// The run exceeded its tick budget.
    BudgetExhausted,
    /// An invariant broke inside the engine.
    Internal(&'static str),
}

impl ServiceError {
    /// Turn engine failures into client-facing ones.
    ///
    /// A head collision is not among them: it is a legitimate terminal state
    /// that still produces a score.
    pub fn from_sim(error: SimError) -> (r: ServiceError)
        ensures
            match error {
                SimError::CommandLimitExceeded { limit } => r == (ServiceError::ProgramTooLarge {
                    limit,
                }),
                SimError::EmptyProgram => r is ProgramInvalid && r->ProgramInvalid_field is None
                    && r.sentence() == "The program does not contain an executable command."@,
                SimError::UnknownJoint { joint_id, message } => r == (ServiceError::ProgramInvalid {
                    message,
                    field: Some(joint_id),
                }),
                SimError::AngleOutOfRange { joint_id, message } => r == (ServiceError::ProgramInvalid {
                    message,
                    field: Some(joint_id),
                }),
                SimError::InvalidWait { message } => r == (ServiceError::ProgramInvalid {
                    message,
                    field: None,
                }),
                SimError::MissingJoint { message } => r == (ServiceError::ProgramInvalid {
                    message,
                    field: None,
                }),
                SimError::InvalidScoring(reason) => r == ServiceError::WeightsInvalid(reason),
                SimError::BudgetExhausted => r == ServiceError::ReplayTimeout,
                SimError::Internal(reason) => r == ServiceError::Internal(reason),
            },
    {
        match error {
            SimError::CommandLimitExceeded { limit } => ServiceError::ProgramTooLarge { limit },
            SimError::EmptyProgram => ServiceError::ProgramInvalid {
                message: "The program does not contain an executable command.".to_owned(),
                field: None,
            },
            SimError::UnknownJoint { joint_id, message } => ServiceError::ProgramInvalid {
                message,
                field: Some(joint_id),
            },
            SimError::AngleOutOfRange { joint_id, message } => ServiceError::ProgramInvalid {
                message,
                field: Some(joint_id),
            },
            SimError::InvalidWait { message } => ServiceError::ProgramInvalid { message, field: None },
            SimError::MissingJoint { message } => ServiceError::ProgramInvalid { message, field: None },
            SimError::InvalidScoring(reason) => ServiceError::WeightsInvalid(reason),
            SimError::BudgetExhausted => ServiceError::ReplayTimeout,
            SimError::Internal(reason) => ServiceError::Internal(reason),
        }
    }
}


/// Two errors that are told by the same code are of the same kind, but for the two that a session
/// which takes no answer gives.
pub proof fn law_codes_tell_errors_apart(a: ServiceError, b: ServiceError)
    requires
        a.wire_code() == b.wire_code(),
    ensures
        a is ChallengeNotFound <==> b is ChallengeNotFound,
        a is ProgramInvalid <==> b is ProgramInvalid,
        a is ProgramTooLarge <==> b is ProgramTooLarge,
        a is WeightsInvalid <==> b is WeightsInvalid,
        a is TrajectoryRejected <==> b is TrajectoryRejected,
        a is TrajectoryPlanningFailed <==> b is TrajectoryPlanningFailed,
        a is ItemRefInvalid <==> b is ItemRefInvalid,
        a is SessionNotFound <==> b is SessionNotFound,
        a is MatchNotReady <==> b is MatchNotReady,
        a is BankExhausted <==> b is BankExhausted,
        a is RateLimited <==> b is RateLimited,
        a is ReplayTimeout <==> b is ReplayTimeout,
        a is Internal <==> b is Internal,
        a.wire_code() is SessionTerminated <==> a is SessionTerminated || a
            is SessionNotAwaitingResponse,
        a.wire_code() is SessionNotFound <==> a is SessionNotFound,
        a.wire_code() is ChallengeNotFound <==> a is ChallengeNotFound,
        a.wire_code() is ItemRefInvalid <==> a is ItemRefInvalid,
        a.wire_code() is RateLimited <==> a is RateLimited,
        a.wire_code() is ReplayTimeout <==> a is ReplayTimeout,
        a.wire_code() is BankExhausted <==> a is BankExhausted,
        a.wire_code() is MatchNotReady <==> a is MatchNotReady,
        a.wire_code() is Internal <==> a is Internal,
        a.wire_code() is ProgramInvalid <==> a is ProgramInvalid,
        a.wire_code() is ProgramTooLarge <==> a is ProgramTooLarge,
        a.wire_code() is WeightsInvalid <==> a is WeightsInvalid,
        a.wire_code() is TrajectoryRejected <==> a is TrajectoryRejected,
        a.wire_code() is TrajectoryPlanningFailed <==> a is TrajectoryPlanningFailed,
        !(a.wire_code() is Unauthorized) && !(a.wire_code() is Forbidden),
{
}

/// A block is blamed exactly where an error names one: for a program that is not valid, and for a
/// trajectory that was refused or could not be planned.
pub proof fn law_a_blamed_block_is_the_one_named(error: ServiceError)
    ensures
        error matches ServiceError::ProgramInvalid { field, .. } ==> error.block() == optional_text(field),
        error matches ServiceError::TrajectoryRejected { field, .. } ==> error.block() == optional_text(
            field,
        ),
        error matches ServiceError::TrajectoryPlanningFailed { field, .. } ==> error.block()
            == optional_text(field),
        !(error is ProgramInvalid) && !(error is TrajectoryRejected) && !(
        error is TrajectoryPlanningFailed) ==> error.block() is None,
        error.context() is Some <==> error is TrajectoryRejected || error is TrajectoryPlanningFailed,
{
}

}
