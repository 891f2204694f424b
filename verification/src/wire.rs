//! Transport-neutral envelope and error model.

use vstd::prelude::*;

verus! {

/// Major protocol version, present in every envelope.
pub const PROTOCOL_VERSION: u8 = 1;

/// Who sent a message.
#[derive(Clone, Copy, Debug, PartialEq, Eq, Structural)]
pub enum ActorType {
    /// A human using a browser.
    User,
    /// A robot arm.
    Device,
    /// The backend itself.
    Service,
}

/// Identity of a message sender.
#[derive(Clone, Debug, PartialEq, Eq)]
pub struct ActorRef {
    /// Kind of actor.
    pub actor_type: ActorType,
    /// Actor identifier within its kind.
    pub id: String,
}

/// The universal message wrapper.
#[derive(Clone, Debug)]
pub struct Envelope<P> {
    /// Protocol major version.
    pub v: u8,
    /// Unique per message. Doubles as the idempotency key.
    pub id: String,
    /// Message discriminator, such as `session.next.req`.
    pub kind: String,
    /// Sender epoch milliseconds. Informational only, never an ordering key.
    pub ts: u64,
    /// `id` of the request this answers.
    pub corr: Option<String>,
    /// Topic the responder must publish the reply to.
    pub reply_to: Option<String>,
    /// Sender identity.
    pub src: Option<ActorRef>,
    /// The message body.
    pub payload: P,
}

impl<P> Envelope<P> {
    /// Build an envelope at the current protocol version.
    pub fn new(id: String, kind: String, ts: u64, payload: P) -> (r: Self)
        ensures
            r.v == PROTOCOL_VERSION,
            r.id == id,
            r.kind == kind,
            r.ts == ts,
            r.payload == payload,
            r.corr is None,
            r.reply_to is None,
            r.src is None,
    {
        Envelope { v: PROTOCOL_VERSION, id, kind, ts, corr: None, reply_to: None, src: None, payload }
    }

    /// Mark this envelope as answering `request_id`.
    pub fn correlate(self, request_id: String) -> (r: Self)
        ensures
            r == (Envelope { corr: Some(request_id), ..self }),
    {
        Envelope {
            v: self.v,
            id: self.id,
            kind: self.kind,
            ts: self.ts,
            corr: Some(request_id),
            reply_to: self.reply_to,
            src: self.src,
            payload: self.payload,
        }
    }
}

/// Stable machine-readable failure codes.
#[derive(Clone, Copy, Debug, PartialEq, Eq, Structural)]
pub enum HcrErrorCode {
    /// Missing or invalid credentials.
    Unauthorized,
    /// Authenticated but not permitted.
    Forbidden,
    /// No such challenge, or no such version.
    ChallengeNotFound,
    /// Program failed validation; `field` locates the offending block.
    ProgramInvalid,
    /// Expansion exceeded the atomic-command cap.
    ProgramTooLarge,
    /// Score weights did not sum to 1, or a reference value was non-positive.
    WeightsInvalid,
    /// A submitted trajectory did not survive verification.
    TrajectoryRejected,
    /// The server-side planner found no trajectory for the program.
    TrajectoryPlanningFailed,
    /// The item reference was forged, stale, or issued for a different session.
    ItemRefInvalid,
    /// No such session.
    SessionNotFound,
    /// Session already terminated.
    SessionTerminated,
    /// The round has not reached the stage the request needs: to be tried again
    /// later, not differently.
    MatchNotReady,
    /// The question bank could not supply an item.
    BankExhausted,
    /// Device is not connected.
    DeviceOffline,
    /// Device is executing something else.
    DeviceBusy,
    /// Replay exceeded its budget.
    ReplayTimeout,
    /// Caller is being throttled.
    RateLimited,
    /// Unexpected server fault.
    Internal,
}

impl HcrErrorCode {
    /// The codes after which the same request could succeed later.
    pub open spec fn may_retry(self) -> bool {
        self is MatchNotReady || self is DeviceOffline || self is DeviceBusy || self is ReplayTimeout
            || self is RateLimited || self is Internal
    }

    /// Whether retrying the same request could plausibly succeed.
    pub fn retryable(self) -> (r: bool)
        ensures
            r == self.may_retry(),
    {
        matches!(
            self,
            HcrErrorCode::MatchNotReady
                | HcrErrorCode::DeviceOffline
                | HcrErrorCode::DeviceBusy
                | HcrErrorCode::ReplayTimeout
                | HcrErrorCode::RateLimited
                | HcrErrorCode::Internal
        )
    }
}

/// The single error shape used by every binding.
#[derive(Clone, Debug, PartialEq, Eq)]
pub struct HcrError {
    /// Stable code.
    pub code: HcrErrorCode,
    /// English, human-readable explanation.
    pub message: String,
    /// Whether a retry could succeed.
    pub retryable: bool,
    /// Field path for validation errors. Lets the editor highlight a block.
    pub field: Option<String>,
    /// Additional context, as keys in ascending order with their values.
    pub details: Option<Vec<(String, String)>>,
}

impl HcrError {
    /// Build an error, deriving `retryable` from the code.
    pub fn new(code: HcrErrorCode, message: String) -> (r: Self)
        ensures
            r == (HcrError {
                code,
                message,
                retryable: code.may_retry(),
                field: None,
                details: None,
            }),
    {
        HcrError { code, message, retryable: code.retryable(), field: None, details: None }
    }

    /// Attach the field path that failed validation.
    pub fn with_field(self, field: String) -> (r: Self)
        ensures
            r == (HcrError { field: Some(field), ..self }),
    {
        HcrError {
            code: self.code,
            message: self.message,
            retryable: self.retryable,
            field: Some(field),
            details: self.details,
        }
    }
}


/// A caller may try again what failed for want of time, of room or of a device, or by a fault of the
/// service; what was refused for what it is will be refused again.
pub proof fn law_what_may_be_tried_again()
    ensures
        HcrErrorCode::MatchNotReady.may_retry(),
        HcrErrorCode::DeviceOffline.may_retry(),
        HcrErrorCode::DeviceBusy.may_retry(),
        HcrErrorCode::ReplayTimeout.may_retry(),
        HcrErrorCode::RateLimited.may_retry(),
        HcrErrorCode::Internal.may_retry(),
        !HcrErrorCode::Unauthorized.may_retry(),
        !HcrErrorCode::Forbidden.may_retry(),
        !HcrErrorCode::ChallengeNotFound.may_retry(),
        !HcrErrorCode::ProgramInvalid.may_retry(),
        !HcrErrorCode::ProgramTooLarge.may_retry(),
        !HcrErrorCode::WeightsInvalid.may_retry(),
        !HcrErrorCode::TrajectoryRejected.may_retry(),
        !HcrErrorCode::TrajectoryPlanningFailed.may_retry(),
        !HcrErrorCode::ItemRefInvalid.may_retry(),
        !HcrErrorCode::SessionNotFound.may_retry(),
        !HcrErrorCode::SessionTerminated.may_retry(),
        !HcrErrorCode::BankExhausted.may_retry(),
{
}

}
