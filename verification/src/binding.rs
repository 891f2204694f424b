//! HTTP binding: what a request asks for, and how failures become statuses.
//!
//! Transport-neutral: a path, a verb and bytes in, a [`Route`] or an error out.
//! The decoding of bodies and the call of the service it leads to are the
//! server's.

use crate::cutter::{CutterGridPlanningErrorCodeV4, CutterGridPlanningStageV4};
use crate::error::ServiceError;
use crate::text::{parse_u32, same, split, split_text, texts_of, u32_of_text};
use crate::wire::HcrErrorCode;
use vstd::prelude::*;
use vstd::utf8::encode_utf8;

verus! {

/// Largest body of a planning request, in bytes.
pub const CUTTER_GRID_PLAN_REQUEST_MAX_BYTES: usize = 262_144;

/// Largest body of a lesson event, in bytes.
pub const LESSON_EVENT_MAX_BYTES: usize = 4_096;

/// The verbs this binding uses.
#[derive(Clone, Copy, Debug, PartialEq, Eq, Structural)]
pub enum Method {
    /// Safe, idempotent reads.
    Get,
    /// Everything else.
    Post,
}

/// What a transport may be asked to do.
#[derive(Clone, Copy, Debug, PartialEq, Eq, Structural)]
pub enum Verb {
    /// A read.
    Get,
    /// Everything else that is routed.
    Post,
    /// A preflight: it addresses the transport rather than the service.
    Options,
    /// Any other verb.
    Other,
}

/// What is done with a request before it is routed.
#[derive(Clone, Copy, Debug)]
pub enum Reception {
    /// It is routed.
    Dispatch(Method),
    /// It is answered as it is.
    Answer {
        /// HTTP status.
        status: u16,
        /// Body.
        body: &'static str,
    },
}

/// What a request with a verb that is not served is told.
pub const ONLY_GET_AND_POST: &'static str =
    "{\"error\":{\"code\":\"FORBIDDEN\",\"message\":\"Only GET and POST are supported.\",\"retryable\":false}}";

/// Receive a request: a GET or POST is routed, a preflight is answered with
/// nothing, and any other verb is turned away.
pub fn receive(verb: Verb) -> (r: Reception)
    ensures
        match verb {
            Verb::Get => r matches Reception::Dispatch(method) && method is Get,
            Verb::Post => r matches Reception::Dispatch(method) && method is Post,
            Verb::Options => r matches Reception::Answer { status, body } && status == 204 && body@
                == ""@,
            Verb::Other => r matches Reception::Answer { status, body } && status == 405 && body@
                == ONLY_GET_AND_POST@,
        },
{
    match verb {
        Verb::Get => Reception::Dispatch(Method::Get),
        Verb::Post => Reception::Dispatch(Method::Post),
        Verb::Options => Reception::Answer { status: 204, body: "" },
        Verb::Other => Reception::Answer { status: 405, body: ONLY_GET_AND_POST },
    }
}

/// An inbound request, already stripped of transport concerns.
#[derive(Clone, Debug, PartialEq, Eq)]
pub struct HttpCall {
    /// Verb.
    pub method: Method,
    /// Path, with the `/api/v1` prefix. Query strings are not used.
    pub path: String,
    /// Raw body.
    pub body: Vec<u8>,
    /// Player identity, supplied by the authentication layer and never read
    /// from the body.
    pub player_id: Option<String>,
    /// Display name for the roster. Cosmetic; falls back to the player.
    pub display_name: Option<String>,
}

impl HttpCall {
    /// A GET.
    pub fn get(path: String) -> (r: Self)
        ensures
            r.method == Method::Get,
            r.path == path,
            r.body@ == Seq::<u8>::empty(),
            r.player_id is None,
            r.display_name is None,
    {
        HttpCall { method: Method::Get, path, body: Vec::new(), player_id: None, display_name: None }
    }

    /// A POST carrying an encoded body.
    pub fn post(path: String, body: Vec<u8>) -> (r: Self)
        ensures
            r == (HttpCall {
                method: Method::Post,
                path,
                body,
                player_id: None,
                display_name: None,
            }),
    {
        HttpCall { method: Method::Post, path, body, player_id: None, display_name: None }
    }

    /// Attach the authenticated player.
    pub fn as_player(self, player_id: String) -> (r: Self)
        ensures
            r == (HttpCall { player_id: Some(player_id), ..self }),
    {
        HttpCall {
            method: self.method,
            path: self.path,
            body: self.body,
            player_id: Some(player_id),
            display_name: self.display_name,
        }
    }

    /// Attach the authenticated player together with a display name.
    pub fn as_player_named(self, player_id: String, display_name: String) -> (r: Self)
        ensures
            r == (HttpCall {
                player_id: Some(player_id),
                display_name: Some(display_name),
                ..self
            }),
    {
        HttpCall {
            method: self.method,
            path: self.path,
            body: self.body,
            player_id: Some(player_id),
            display_name: Some(display_name),
        }
    }
}

/// The text some bytes are shown as.
pub uninterp spec fn shown_text(bytes: Seq<u8>) -> Seq<char>;

/// Calls `String::from_utf8_lossy`. The text depends on the bytes alone, and
/// bytes that are the UTF-8 of a text are shown as that text; others with
/// replacement characters.
#[verifier::external_body]
fn utf8_lossy(bytes: &[u8]) -> (text: String)
    ensures
        text@ == shown_text(bytes@),
        forall|chars: Seq<char>| #[trigger] encode_utf8(chars) == bytes@ ==> text@ == chars,
{
    String::from_utf8_lossy(bytes).into_owned()
}

/// The reply, ready for whatever transport is carrying it.
#[derive(Clone, Debug, PartialEq, Eq)]
pub struct HttpReply {
    /// HTTP status.
    pub status: u16,
    /// Extra headers, in order.
    pub headers: Vec<(String, String)>,
    /// JSON body.
    pub body: Vec<u8>,
}

impl HttpReply {
    /// Body decoded as UTF-8, for logging and tests.
    pub fn text(&self) -> (r: String)
        ensures
            r@ == shown_text(self.body@),
            forall|chars: Seq<char>| #[trigger] encode_utf8(chars) == self.body@ ==> r@ == chars,
    {
        utf8_lossy(self.body.as_slice())
    }

    /// A successful reply with an encoded body.
    pub fn success(body: Vec<u8>) -> (r: Self)
        ensures
            r.status == 200,
            r.headers@.len() == 0,
            r.body == body,
    {
        HttpReply { status: 200, headers: Vec::new(), body }
    }

    /// The reply to a failure, with its encoded wire form.
    pub fn failure(error: &ServiceError, body: Vec<u8>) -> (r: Self)
        ensures
            r.status == http_status(error.wire_code()),
            r.headers@.len() == 0,
            r.body == body,
    {
        HttpReply { status: status_for(error.code()), headers: Vec::new(), body }
    }
}

/// The HTTP status of a wire error code.
pub open spec fn http_status(code: HcrErrorCode) -> u16 {
    match code {
        HcrErrorCode::Unauthorized => 401,
        HcrErrorCode::Forbidden => 403,
        HcrErrorCode::ChallengeNotFound | HcrErrorCode::SessionNotFound => 404,
        HcrErrorCode::ProgramInvalid
        | HcrErrorCode::ProgramTooLarge
        | HcrErrorCode::WeightsInvalid
        | HcrErrorCode::TrajectoryRejected
        | HcrErrorCode::TrajectoryPlanningFailed => 422,
        HcrErrorCode::ItemRefInvalid
        | HcrErrorCode::SessionTerminated
        | HcrErrorCode::MatchNotReady
        | HcrErrorCode::BankExhausted
        | HcrErrorCode::DeviceOffline
        | HcrErrorCode::DeviceBusy => 409,
        HcrErrorCode::RateLimited => 429,
        HcrErrorCode::ReplayTimeout => 504,
        HcrErrorCode::Internal => 500,
    }
}

/// Map a wire error code to an HTTP status.
pub fn status_for(code: HcrErrorCode) -> (r: u16)
    ensures
        r == http_status(code),
{
    match code {
        HcrErrorCode::Unauthorized => 401,
        HcrErrorCode::Forbidden => 403,
        HcrErrorCode::ChallengeNotFound | HcrErrorCode::SessionNotFound => 404,
        // The request is well-formed and describes something the server will
        // not accept; no retrying of the identical bytes changes that.
        HcrErrorCode::ProgramInvalid
        | HcrErrorCode::ProgramTooLarge
        | HcrErrorCode::WeightsInvalid
        | HcrErrorCode::TrajectoryRejected
        | HcrErrorCode::TrajectoryPlanningFailed => 422,
        HcrErrorCode::ItemRefInvalid
        | HcrErrorCode::SessionTerminated
        | HcrErrorCode::MatchNotReady
        | HcrErrorCode::BankExhausted
        | HcrErrorCode::DeviceOffline
        | HcrErrorCode::DeviceBusy => 409,
        HcrErrorCode::RateLimited => 429,
        HcrErrorCode::ReplayTimeout => 504,
        HcrErrorCode::Internal => 500,
    }
}

/// A failure is never reported as a success, and content the server will not
/// accept is never worth retrying.
pub proof fn law_statuses_separate_failures_from_successes(code: HcrErrorCode)
    ensures
        400 <= http_status(code) < 600,
        http_status(code) == 422 ==> !code.may_retry(),
{
}

/// What a request asks for.
#[derive(Clone, Debug, PartialEq, Eq)]
pub enum Route {
    /// List the challenges.
    ListChallenges,
    /// The latest version of a challenge.
    GetChallenge {
        /// Which challenge.
        id: String,
    },
    /// One version of a challenge.
    GetChallengeVersion {
        /// Which challenge.
        id: String,
        /// Which version.
        version: u32,
    },
    /// Score voxel sets directly.
    Score,
    /// Plan a Cutter Grid program.
    PlanCutterGrid,
    /// Score a program.
    CreateSubmission,
    /// A scored submission.
    GetSubmission {
        /// Which submission.
        id: String,
    },
    /// Open an adaptive session.
    StartSession,
    /// The state of a session.
    GetSession {
        /// Which session.
        id: String,
    },
    /// Serve the next item.
    NextItem {
        /// Which session.
        id: String,
    },
    /// Report a scored submission. The path is authoritative for the session.
    Respond {
        /// Which session.
        id: String,
    },
    /// Close a session.
    FinalizeSession {
        /// Which session.
        id: String,
    },
    /// The server clock.
    Time,
    /// Open a round.
    CreateMatch,
    /// The state of a round.
    GetMatch {
        /// Which round.
        id: String,
    },
    /// The challenge of a round.
    MatchChallenge {
        /// Which round.
        id: String,
    },
    /// The standings of a round.
    MatchResults {
        /// Which round.
        id: String,
    },
    /// Join a round.
    JoinMatch {
        /// Which round.
        id: String,
        /// Who joins.
        player: String,
        /// Under which name.
        display_name: String,
    },
    /// Start a round.
    StartMatch {
        /// Which round.
        id: String,
    },
    /// Submit to a round.
    SubmitToMatch {
        /// Which round.
        id: String,
        /// Who submits.
        player: String,
    },
    /// Record a lesson event.
    RecordLesson,
}

/// What a request asks for, by value.
pub enum RouteView {
    /// List the challenges.
    ListChallenges,
    /// The latest version of a challenge.
    GetChallenge { id: Seq<char> },
    /// One version of a challenge.
    GetChallengeVersion { id: Seq<char>, version: u32 },
    /// Score voxel sets directly.
    Score,
    /// Plan a Cutter Grid program.
    PlanCutterGrid,
    /// Score a program.
    CreateSubmission,
    /// A scored submission.
    GetSubmission { id: Seq<char> },
    /// Open an adaptive session.
    StartSession,
    /// The state of a session.
    GetSession { id: Seq<char> },
    /// Serve the next item.
    NextItem { id: Seq<char> },
    /// Report a scored submission.
    Respond { id: Seq<char> },
    /// Close a session.
    FinalizeSession { id: Seq<char> },
    /// The server clock.
    Time,
    /// Open a round.
    CreateMatch,
    /// The state of a round.
    GetMatch { id: Seq<char> },
    /// The challenge of a round.
    MatchChallenge { id: Seq<char> },
    /// The standings of a round.
    MatchResults { id: Seq<char> },
    /// Join a round.
    JoinMatch { id: Seq<char>, player: Seq<char>, display_name: Seq<char> },
    /// Start a round.
    StartMatch { id: Seq<char> },
    /// Submit to a round.
    SubmitToMatch { id: Seq<char>, player: Seq<char> },
    /// Record a lesson event.
    RecordLesson,
}

impl View for Route {
    type V = RouteView;

    open spec fn view(&self) -> RouteView {
        match self {
            Route::ListChallenges => RouteView::ListChallenges,
            Route::GetChallenge { id } => RouteView::GetChallenge { id: id@ },
            Route::GetChallengeVersion { id, version } => RouteView::GetChallengeVersion {
                id: id@,
                version: *version,
            },
            Route::Score => RouteView::Score,
            Route::PlanCutterGrid => RouteView::PlanCutterGrid,
            Route::CreateSubmission => RouteView::CreateSubmission,
            Route::GetSubmission { id } => RouteView::GetSubmission { id: id@ },
            Route::StartSession => RouteView::StartSession,
            Route::GetSession { id } => RouteView::GetSession { id: id@ },
            Route::NextItem { id } => RouteView::NextItem { id: id@ },
            Route::Respond { id } => RouteView::Respond { id: id@ },
            Route::FinalizeSession { id } => RouteView::FinalizeSession { id: id@ },
            Route::Time => RouteView::Time,
            Route::CreateMatch => RouteView::CreateMatch,
            Route::GetMatch { id } => RouteView::GetMatch { id: id@ },
            Route::MatchChallenge { id } => RouteView::MatchChallenge { id: id@ },
            Route::MatchResults { id } => RouteView::MatchResults { id: id@ },
            Route::JoinMatch { id, player, display_name } => RouteView::JoinMatch {
                id: id@,
                player: player@,
                display_name: display_name@,
            },
            Route::StartMatch { id } => RouteView::StartMatch { id: id@ },
            Route::SubmitToMatch { id, player } => RouteView::SubmitToMatch { id: id@, player: player@ },
            Route::RecordLesson => RouteView::RecordLesson,
        }
    }
}

/// Whether a piece of a path stands for something.
pub open spec fn is_segment(piece: Seq<char>) -> bool {
    piece.len() > 0
}

/// The pieces of a path between slashes, without the empty ones.
pub open spec fn path_segments(path: Seq<char>) -> Seq<Seq<char>> {
    split_text(path, '/').filter(|piece: Seq<char>| is_segment(piece))
}

/// Why a request leads nowhere.
pub enum RouteRefusal {
    /// No such route.
    NotFound,
    /// Joining takes an authenticated player.
    JoinNeedsPlayer,
    /// Submitting takes an authenticated player.
    SubmitNeedsPlayer,
    /// The body is larger than the route allows.
    BodyTooLarge { limit: usize },
}

/// What the pieces of a path after the prefix ask for.
pub open spec fn route_of(
    method: Method,
    rest: Seq<Seq<char>>,
    player: Option<Seq<char>>,
    display_name: Option<Seq<char>>,
    body_len: nat,
) -> Result<RouteView, RouteRefusal> {
    if rest.len() == 1 {
        if method is Get && rest[0] == "challenges"@ {
            Ok(RouteView::ListChallenges)
        } else if method is Get && rest[0] == "time"@ {
            Ok(RouteView::Time)
        } else if method is Post && rest[0] == "score"@ {
            Ok(RouteView::Score)
        } else if method is Post && rest[0] == "submissions"@ {
            Ok(RouteView::CreateSubmission)
        } else if method is Post && rest[0] == "sessions"@ {
            Ok(RouteView::StartSession)
        } else if method is Post && rest[0] == "matches"@ {
            Ok(RouteView::CreateMatch)
        } else {
            Err(RouteRefusal::NotFound)
        }
    } else if rest.len() == 2 {
        if method is Get && rest[0] == "challenges"@ {
            Ok(RouteView::GetChallenge { id: rest[1] })
        } else if method is Get && rest[0] == "submissions"@ {
            Ok(RouteView::GetSubmission { id: rest[1] })
        } else if method is Get && rest[0] == "sessions"@ {
            Ok(RouteView::GetSession { id: rest[1] })
        } else if method is Get && rest[0] == "matches"@ {
            Ok(RouteView::GetMatch { id: rest[1] })
        } else if method is Post && rest[0] == "cutter-grid"@ && rest[1] == "plans"@ {
            if body_len > CUTTER_GRID_PLAN_REQUEST_MAX_BYTES {
                Err(RouteRefusal::BodyTooLarge { limit: CUTTER_GRID_PLAN_REQUEST_MAX_BYTES })
            } else {
                Ok(RouteView::PlanCutterGrid)
            }
        } else if method is Post && rest[0] == "usage"@ && rest[1] == "lessons"@ {
            if body_len > LESSON_EVENT_MAX_BYTES {
                Err(RouteRefusal::BodyTooLarge { limit: LESSON_EVENT_MAX_BYTES })
            } else {
                Ok(RouteView::RecordLesson)
            }
        } else {
            Err(RouteRefusal::NotFound)
        }
    } else if rest.len() == 3 {
        if method is Get && rest[0] == "challenges"@ {
            match u32_of_text(rest[2]) {
                Some(version) => Ok(RouteView::GetChallengeVersion { id: rest[1], version }),
                None => Err(RouteRefusal::NotFound),
            }
        } else if method is Post && rest[0] == "sessions"@ && rest[2] == "next"@ {
            Ok(RouteView::NextItem { id: rest[1] })
        } else if method is Post && rest[0] == "sessions"@ && rest[2] == "responses"@ {
            Ok(RouteView::Respond { id: rest[1] })
        } else if method is Post && rest[0] == "sessions"@ && rest[2] == "finalize"@ {
            Ok(RouteView::FinalizeSession { id: rest[1] })
        } else if method is Get && rest[0] == "matches"@ && rest[2] == "challenge"@ {
            Ok(RouteView::MatchChallenge { id: rest[1] })
        } else if method is Get && rest[0] == "matches"@ && rest[2] == "results"@ {
            Ok(RouteView::MatchResults { id: rest[1] })
        } else if method is Post && rest[0] == "matches"@ && rest[2] == "join"@ {
            match player {
                Some(player) => Ok(
                    RouteView::JoinMatch {
                        id: rest[1],
                        player,
                        display_name: match display_name {
                            Some(name) => name,
                            None => player,
                        },
                    },
                ),
                None => Err(RouteRefusal::JoinNeedsPlayer),
            }
        } else if method is Post && rest[0] == "matches"@ && rest[2] == "start"@ {
            Ok(RouteView::StartMatch { id: rest[1] })
        } else if method is Post && rest[0] == "matches"@ && rest[2] == "submissions"@ {
            match player {
                Some(player) => Ok(RouteView::SubmitToMatch { id: rest[1], player }),
                None => Err(RouteRefusal::SubmitNeedsPlayer),
            }
        } else {
            Err(RouteRefusal::NotFound)
        }
    } else {
        Err(RouteRefusal::NotFound)
    }
}

/// An optional text, by its characters.
pub open spec fn caller_view(text: Option<String>) -> Option<Seq<char>> {
    match text {
        Some(text) => Some(text@),
        None => None,
    }
}

/// What a request asks for. Everything lives under `/api/v1`.
pub open spec fn request_route(call: HttpCall) -> Result<RouteView, RouteRefusal> {
    let segments = path_segments(call.path@);
    if segments.len() >= 2 && segments[0] == "api"@ && segments[1] == "v1"@ {
        route_of(
            call.method,
            segments.skip(2),
            caller_view(call.player_id),
            caller_view(call.display_name),
            call.body@.len(),
        )
    } else {
        Err(RouteRefusal::NotFound)
    }
}

/// Whether an error reports a refusal.
pub open spec fn reports_refusal(error: ServiceError, refusal: RouteRefusal) -> bool {
    match refusal {
        RouteRefusal::NotFound => error.is_challenge_not_found("route"@, None),
        RouteRefusal::JoinNeedsPlayer => error.is_internal("join requires an authenticated player"@),
        RouteRefusal::SubmitNeedsPlayer => error.is_internal(
            "submitting requires an authenticated player"@,
        ),
        RouteRefusal::BodyTooLarge { limit } => error.wire_code() == HcrErrorCode::ProgramInvalid
            && error.sentence() == "The request body is too large."@ && error.block() is None,
    }
}

/// The error of a path that leads nowhere.
pub fn not_found() -> (r: ServiceError)
    ensures
        r.is_challenge_not_found("route"@, None),
{
    ServiceError::ChallengeNotFound { challenge_id: "route".to_owned(), version: None }
}

/// The error of a request for a plan. No planner profile is registered with the
/// service, so it fails closed.
pub fn planner_not_ready() -> (r: ServiceError)
    ensures
        r == (ServiceError::TrajectoryPlanningFailed {
            planner_code: CutterGridPlanningErrorCodeV4::PlannerNotReady,
            stage: CutterGridPlanningStageV4::Profile,
            field: None,
            action_index: None,
            expanded_action_index: None,
            target_coord: None,
        }),
{
    ServiceError::TrajectoryPlanningFailed {
        planner_code: CutterGridPlanningErrorCodeV4::PlannerNotReady,
        stage: CutterGridPlanningStageV4::Profile,
        field: None,
        action_index: None,
        expanded_action_index: None,
        target_coord: None,
    }
}

/// The error of a body that does not decode, with the decoder's explanation.
pub fn malformed_body(detail: &str) -> (r: ServiceError)
    ensures
        r.wire_code() == HcrErrorCode::ProgramInvalid,
        r.sentence() == "Malformed request body: "@ + detail@,
        r.block() is None,
{
    let mut message: String = "Malformed request body: ".to_owned();
    message.append(detail);
    ServiceError::ProgramInvalid { message, field: None }
}

fn body_too_large(limit: usize) -> (r: ServiceError)
    ensures
        reports_refusal(r, RouteRefusal::BodyTooLarge { limit }),
{
    ServiceError::ProgramInvalid { message: "The request body is too large.".to_owned(), field: None }
}

/// The nonempty pieces of a path.
fn segments_of<'a>(path: &'a str) -> (r: Vec<&'a str>)
    ensures
        texts_of(r@) == path_segments(path@),
{
    let pieces = split(path, '/');
    let ghost all = split_text(path@, '/');
    let ghost keep = |piece: Seq<char>| is_segment(piece);
    let mut kept: Vec<&'a str> = Vec::new();
    assert(all.take(0) =~= Seq::<Seq<char>>::empty());
    proof {
        reveal(Seq::filter);
    }
    assert(texts_of(kept@) =~= all.take(0).filter(keep));
    for i in 0..pieces.len()
        invariant
            texts_of(pieces@) == all,
            keep == (|piece: Seq<char>| is_segment(piece)),
            texts_of(kept@) == all.take(i as int).filter(keep),
    {
        let ghost before = kept@;
        let piece = pieces[i];
        assert(texts_of(pieces@)[i as int] == piece@);
        if !piece.is_empty() {
            kept.push(piece);
            assert(texts_of(kept@) =~= texts_of(before).push(piece@));
        }
        proof {
            reveal(Seq::filter);
            assert(all.take(i + 1).drop_last() =~= all.take(i as int));
            assert(all.take(i + 1).last() == piece@);
        }
    }
    assert(all.take(all.len() as int) =~= all);
    kept
}

/// What a request asks for.
pub fn route(call: &HttpCall) -> (r: Result<Route, ServiceError>)
    ensures
        match (r, request_route(*call)) {
            (Ok(route), Ok(asked)) => route@ == asked,
            (Err(error), Err(refusal)) => reports_refusal(error, refusal),
            _ => false,
        },
{
    let segments = segments_of(call.path.as_str());
    let ghost texts = texts_of(segments@);
    if segments.len() < 2 {
        return Err(not_found());
    }
    assert(texts[0] == segments@[0]@ && texts[1] == segments@[1]@);
    if !same(segments[0], "api") || !same(segments[1], "v1") {
        return Err(not_found());
    }
    let ghost rest = texts.skip(2);
    let count = segments.len() - 2;
    if count == 1 {
        assert(rest[0] == segments@[2]@);
        let answer = route_one(call, segments[2]);
        assert(answers(answer, *call, rest));
        return answer;
    }
    if count == 2 {
        assert(rest[0] == segments@[2]@ && rest[1] == segments@[3]@);
        let answer = route_two(call, segments[2], segments[3]);
        assert(answers(answer, *call, rest));
        return answer;
    }
    if count == 3 {
        assert(rest[0] == segments@[2]@ && rest[1] == segments@[3]@ && rest[2] == segments@[4]@);
        let answer = route_three(call, segments[2], segments[3], segments[4]);
        assert(answers(answer, *call, rest));
        return answer;
    }
    Err(not_found())
}

/// Whether an outcome answers the pieces of a path.
spec fn answers(r: Result<Route, ServiceError>, call: HttpCall, rest: Seq<Seq<char>>) -> bool {
    let asked = route_of(
        call.method,
        rest,
        caller_view(call.player_id),
        caller_view(call.display_name),
        call.body@.len(),
    );
    match (r, asked) {
        (Ok(route), Ok(asked)) => route@ == asked,
        (Err(error), Err(refusal)) => reports_refusal(error, refusal),
        _ => false,
    }
}

fn route_one(call: &HttpCall, head: &str) -> (r: Result<Route, ServiceError>)
    ensures
        forall|rest: Seq<Seq<char>>|
            rest.len() == 1 && rest[0] == head@ ==> #[trigger] answers(r, *call, rest),
{
    match call.method {
        Method::Get => {
            if same(head, "challenges") {
                return Ok(Route::ListChallenges);
            }
            if same(head, "time") {
                return Ok(Route::Time);
            }
        },
        Method::Post => {
            if same(head, "score") {
                return Ok(Route::Score);
            }
            if same(head, "submissions") {
                return Ok(Route::CreateSubmission);
            }
            if same(head, "sessions") {
                return Ok(Route::StartSession);
            }
            if same(head, "matches") {
                return Ok(Route::CreateMatch);
            }
        },
    }
    Err(not_found())
}

fn route_two(call: &HttpCall, head: &str, second: &str) -> (r: Result<Route, ServiceError>)
    ensures
        forall|rest: Seq<Seq<char>>|
            rest.len() == 2 && rest[0] == head@ && rest[1] == second@ ==> #[trigger] answers(
                r,
                *call,
                rest,
            ),
{
    match call.method {
        Method::Get => {
            if same(head, "challenges") {
                return Ok(Route::GetChallenge { id: second.to_owned() });
            }
            if same(head, "submissions") {
                return Ok(Route::GetSubmission { id: second.to_owned() });
            }
            if same(head, "sessions") {
                return Ok(Route::GetSession { id: second.to_owned() });
            }
            if same(head, "matches") {
                return Ok(Route::GetMatch { id: second.to_owned() });
            }
        },
        Method::Post => {
            if same(head, "cutter-grid") && same(second, "plans") {
                if call.body.len() > CUTTER_GRID_PLAN_REQUEST_MAX_BYTES {
                    return Err(body_too_large(CUTTER_GRID_PLAN_REQUEST_MAX_BYTES));
                }
                return Ok(Route::PlanCutterGrid);
            }
            if same(head, "usage") && same(second, "lessons") {
                if call.body.len() > LESSON_EVENT_MAX_BYTES {
                    return Err(body_too_large(LESSON_EVENT_MAX_BYTES));
                }
                return Ok(Route::RecordLesson);
            }
        },
    }
    Err(not_found())
}

fn route_three(call: &HttpCall, head: &str, second: &str, third: &str) -> (r: Result<
    Route,
    ServiceError,
>)
    ensures
        forall|rest: Seq<Seq<char>>|
            rest.len() == 3 && rest[0] == head@ && rest[1] == second@ && rest[2] == third@
                ==> #[trigger] answers(r, *call, rest),
{
    let id = second.to_owned();
    match call.method {
        Method::Get => {
            if same(head, "challenges") {
                return match parse_u32(third) {
                    Some(version) => Ok(Route::GetChallengeVersion { id, version }),
                    None => Err(not_found()),
                };
            }
            if same(head, "matches") && same(third, "challenge") {
                return Ok(Route::MatchChallenge { id });
            }
            if same(head, "matches") && same(third, "results") {
                return Ok(Route::MatchResults { id });
            }
        },
        Method::Post => {
            if same(head, "sessions") && same(third, "next") {
                return Ok(Route::NextItem { id });
            }
            if same(head, "sessions") && same(third, "responses") {
                return Ok(Route::Respond { id });
            }
            if same(head, "sessions") && same(third, "finalize") {
                return Ok(Route::FinalizeSession { id });
            }
            if same(head, "matches") && same(third, "join") {
                let player = match &call.player_id {
                    Some(player) => player.clone(),
                    None => {
                        return Err(ServiceError::Internal("join requires an authenticated player"));
                    },
                };
                let display_name = match &call.display_name {
                    Some(name) => name.clone(),
                    None => player.clone(),
                };
                return Ok(Route::JoinMatch { id, player, display_name });
            }
            if same(head, "matches") && same(third, "start") {
                return Ok(Route::StartMatch { id });
            }
            if same(head, "matches") && same(third, "submissions") {
                return match &call.player_id {
                    Some(player) => Ok(Route::SubmitToMatch { id, player: player.clone() }),
                    None => Err(
                        ServiceError::Internal("submitting requires an authenticated player"),
                    ),
                };
            }
        },
    }
    Err(not_found())
}


/// How a failure is answered: what is not there with 404, a caller who is not known with 401 and one
/// who may not with 403, content that is not accepted with 422, what does not go together with the
/// present state with 409, too many calls with 429, a replay out of time with 504 and a fault of the
/// service with 500.
pub proof fn law_a_failure_has_its_status(code: HcrErrorCode)
    ensures
        http_status(code) == 404 <==> code is ChallengeNotFound || code is SessionNotFound,
        http_status(code) == 401 <==> code is Unauthorized,
        http_status(code) == 403 <==> code is Forbidden,
        http_status(code) == 429 <==> code is RateLimited,
        http_status(code) == 504 <==> code is ReplayTimeout,
        http_status(code) == 500 <==> code is Internal,
        http_status(code) == 422 <==> code is ProgramInvalid || code is ProgramTooLarge || code
            is WeightsInvalid || code is TrajectoryRejected || code is TrajectoryPlanningFailed,
        http_status(code) == 409 <==> code is ItemRefInvalid || code is SessionTerminated || code
            is MatchNotReady || code is BankExhausted || code is DeviceOffline || code is DeviceBusy,
{
}

/// Only what a request to read can mean is found for one that reads, and only what a request to
/// write can mean for one that writes.
pub proof fn law_reading_does_not_write(
    rest: Seq<Seq<char>>,
    player: Option<Seq<char>>,
    display_name: Option<Seq<char>>,
    body_len: nat,
)
    ensures
        route_of(Method::Get, rest, player, display_name, body_len) matches Ok(route) ==> (route
            is ListChallenges || route is GetChallenge || route is GetChallengeVersion || route
            is GetSubmission || route is GetSession || route is GetMatch || route is MatchChallenge || route
            is MatchResults || route is Time),
        route_of(Method::Post, rest, player, display_name, body_len) matches Ok(route) ==> (route
            is Score || route is PlanCutterGrid || route is CreateSubmission || route is StartSession
            || route is NextItem || route is Respond || route is FinalizeSession || route is CreateMatch
            || route is JoinMatch || route is StartMatch || route is SubmitToMatch || route
            is RecordLesson),
{
}

/// A request about one thing is about the thing its path names, and a request in a player's name is
/// in the name of the player who sent it; nobody joins or hands in without one. A player who gives
/// no other name is shown by their own.
pub proof fn law_a_request_is_about_what_it_names(
    method: Method,
    rest: Seq<Seq<char>>,
    player: Option<Seq<char>>,
    display_name: Option<Seq<char>>,
    body_len: nat,
)
    ensures
        route_of(method, rest, player, display_name, body_len) matches Ok(
            RouteView::JoinMatch { id, player: who, display_name: shown },
        ) ==> (rest.len() == 3 && id == rest[1] && player == Some(who) && shown == match display_name {
            Some(name) => name,
            None => who,
        }),
        route_of(method, rest, player, display_name, body_len) matches Ok(
            RouteView::SubmitToMatch { id, player: who },
        ) ==> (rest.len() == 3 && id == rest[1] && player == Some(who)),
        player is None ==> !(route_of(method, rest, player, display_name, body_len) matches Ok(
            RouteView::JoinMatch { .. },
        )) && !(route_of(method, rest, player, display_name, body_len) matches Ok(
            RouteView::SubmitToMatch { .. },
        )),
        route_of(method, rest, player, display_name, body_len) matches Ok(
            RouteView::GetChallengeVersion { id, version },
        ) ==> (rest.len() == 3 && rest[0] == "challenges"@ && id == rest[1] && u32_of_text(rest[2])
            == Some(version)),
        route_of(method, rest, player, display_name, body_len) matches Ok(
            RouteView::GetChallenge { id },
        ) ==> (rest == seq!["challenges"@, id]),
        route_of(method, rest, player, display_name, body_len) matches Ok(
            RouteView::GetSubmission { id },
        ) ==> (rest == seq!["submissions"@, id]),
        route_of(method, rest, player, display_name, body_len) matches Ok(
            RouteView::GetSession { id },
        ) ==> (rest == seq!["sessions"@, id]),
        route_of(method, rest, player, display_name, body_len) matches Ok(
            RouteView::GetMatch { id },
        ) ==> (rest == seq!["matches"@, id]),
        route_of(method, rest, player, display_name, body_len) matches Ok(
            RouteView::NextItem { id },
        ) ==> (rest == seq!["sessions"@, id, "next"@]),
        route_of(method, rest, player, display_name, body_len) matches Ok(
            RouteView::Respond { id },
        ) ==> (rest == seq!["sessions"@, id, "responses"@]),
        route_of(method, rest, player, display_name, body_len) matches Ok(
            RouteView::FinalizeSession { id },
        ) ==> (rest == seq!["sessions"@, id, "finalize"@]),
        route_of(method, rest, player, display_name, body_len) matches Ok(
            RouteView::MatchChallenge { id },
        ) ==> (rest == seq!["matches"@, id, "challenge"@]),
        route_of(method, rest, player, display_name, body_len) matches Ok(
            RouteView::MatchResults { id },
        ) ==> (rest == seq!["matches"@, id, "results"@]),
        route_of(method, rest, player, display_name, body_len) matches Ok(
            RouteView::StartMatch { id },
        ) ==> (rest == seq!["matches"@, id, "start"@]),
{
    if rest.len() == 2 {
        assert(rest =~= seq![rest[0], rest[1]]);
    }
    if rest.len() == 3 {
        assert(rest =~= seq![rest[0], rest[1], rest[2]]);
    }
}

/// Every path of the service answers, with the method it is meant for.
pub proof fn law_every_path_answers(
    id: Seq<char>,
    player: Seq<char>,
    display_name: Option<Seq<char>>,
    body_len: nat,
)
    ensures
        route_of(Method::Get, seq!["challenges"@], None, display_name, body_len) == Ok::<
            RouteView,
            RouteRefusal,
        >(RouteView::ListChallenges),
        route_of(Method::Get, seq!["time"@], None, display_name, body_len) == Ok::<
            RouteView,
            RouteRefusal,
        >(RouteView::Time),
        route_of(Method::Post, seq!["score"@], None, display_name, body_len) == Ok::<
            RouteView,
            RouteRefusal,
        >(RouteView::Score),
        route_of(Method::Post, seq!["submissions"@], None, display_name, body_len) == Ok::<
            RouteView,
            RouteRefusal,
        >(RouteView::CreateSubmission),
        route_of(Method::Post, seq!["sessions"@], None, display_name, body_len) == Ok::<
            RouteView,
            RouteRefusal,
        >(RouteView::StartSession),
        route_of(Method::Post, seq!["matches"@], None, display_name, body_len) == Ok::<
            RouteView,
            RouteRefusal,
        >(RouteView::CreateMatch),
        route_of(Method::Get, seq!["challenges"@, id], None, display_name, body_len) == Ok::<
            RouteView,
            RouteRefusal,
        >(RouteView::GetChallenge { id }),
        route_of(Method::Get, seq!["submissions"@, id], None, display_name, body_len) == Ok::<
            RouteView,
            RouteRefusal,
        >(RouteView::GetSubmission { id }),
        route_of(Method::Get, seq!["sessions"@, id], None, display_name, body_len) == Ok::<
            RouteView,
            RouteRefusal,
        >(RouteView::GetSession { id }),
        route_of(Method::Get, seq!["matches"@, id], None, display_name, body_len) == Ok::<
            RouteView,
            RouteRefusal,
        >(RouteView::GetMatch { id }),
        route_of(Method::Post, seq!["sessions"@, id, "next"@], None, display_name, body_len) == Ok::<
            RouteView,
            RouteRefusal,
        >(RouteView::NextItem { id }),
        route_of(Method::Post, seq!["sessions"@, id, "responses"@], None, display_name, body_len) == Ok::<
            RouteView,
            RouteRefusal,
        >(RouteView::Respond { id }),
        route_of(Method::Post, seq!["sessions"@, id, "finalize"@], None, display_name, body_len) == Ok::<
            RouteView,
            RouteRefusal,
        >(RouteView::FinalizeSession { id }),
        route_of(Method::Get, seq!["matches"@, id, "challenge"@], None, display_name, body_len) == Ok::<
            RouteView,
            RouteRefusal,
        >(RouteView::MatchChallenge { id }),
        route_of(Method::Get, seq!["matches"@, id, "results"@], None, display_name, body_len) == Ok::<
            RouteView,
            RouteRefusal,
        >(RouteView::MatchResults { id }),
        route_of(Method::Post, seq!["matches"@, id, "start"@], None, display_name, body_len) == Ok::<
            RouteView,
            RouteRefusal,
        >(RouteView::StartMatch { id }),
        route_of(
            Method::Post,
            seq!["matches"@, id, "submissions"@],
            Some(player),
            display_name,
            body_len,
        ) == Ok::<RouteView, RouteRefusal>(RouteView::SubmitToMatch { id, player }),
        route_of(
            Method::Post,
            seq!["matches"@, id, "join"@],
            Some(player),
            Some(id),
            body_len,
        ) == Ok::<RouteView, RouteRefusal>(RouteView::JoinMatch { id, player, display_name: id }),
        route_of(Method::Post, seq!["matches"@, id, "join"@], Some(player), None, body_len) == Ok::<
            RouteView,
            RouteRefusal,
        >(RouteView::JoinMatch { id, player, display_name: player }),
        body_len <= 262_144 ==> route_of(
            Method::Post,
            seq!["cutter-grid"@, "plans"@],
            None,
            display_name,
            body_len,
        ) == Ok::<RouteView, RouteRefusal>(RouteView::PlanCutterGrid),
        body_len > 262_144 ==> route_of(
            Method::Post,
            seq!["cutter-grid"@, "plans"@],
            None,
            display_name,
            body_len,
        ) is Err,
        body_len <= 4_096 ==> route_of(
            Method::Post,
            seq!["usage"@, "lessons"@],
            None,
            display_name,
            body_len,
        ) == Ok::<RouteView, RouteRefusal>(RouteView::RecordLesson),
        body_len > 4_096 ==> route_of(
            Method::Post,
            seq!["usage"@, "lessons"@],
            None,
            display_name,
            body_len,
        ) is Err,
{
    reveal_strlit("challenges");
    reveal_strlit("time");
    reveal_strlit("score");
    reveal_strlit("submissions");
    reveal_strlit("sessions");
    reveal_strlit("matches");
    reveal_strlit("next");
    reveal_strlit("responses");
    reveal_strlit("finalize");
    reveal_strlit("challenge");
    reveal_strlit("results");
    reveal_strlit("start");
    reveal_strlit("join");
    reveal_strlit("cutter-grid");
    reveal_strlit("plans");
    reveal_strlit("usage");
    reveal_strlit("lessons");
    assert("challenges"@.len() != "time"@.len());
    assert("challenges"@.len() != "score"@.len());
    assert("challenges"@.len() != "submissions"@.len());
    assert("challenges"@.len() != "sessions"@.len());
    assert("challenges"@.len() != "matches"@.len());
    assert("time"@.len() != "score"@.len());
    assert("time"@.len() != "submissions"@.len());
    assert("time"@.len() != "sessions"@.len());
    assert("time"@.len() != "matches"@.len());
    assert("score"@.len() != "submissions"@.len());
    assert("score"@.len() != "sessions"@.len());
    assert("score"@.len() != "matches"@.len());
    assert("submissions"@.len() != "sessions"@.len());
    assert("submissions"@.len() != "matches"@.len());
    assert("sessions"@.len() != "matches"@.len());
    assert("challenges"@.len() != "cutter-grid"@.len());
    assert("challenges"@.len() != "usage"@.len());
    assert("submissions"@[0] != "cutter-grid"@[0]);
    assert("submissions"@.len() != "usage"@.len());
    assert("sessions"@.len() != "cutter-grid"@.len());
    assert("sessions"@.len() != "usage"@.len());
    assert("matches"@.len() != "cutter-grid"@.len());
    assert("matches"@.len() != "usage"@.len());
    assert("cutter-grid"@.len() != "usage"@.len());
    assert("next"@.len() != "responses"@.len());
    assert("next"@.len() != "finalize"@.len());
    assert("next"@.len() != "challenge"@.len());
    assert("next"@.len() != "results"@.len());
    assert("next"@[0] != "join"@[0]);
    assert("next"@.len() != "start"@.len());
    assert("next"@.len() != "submissions"@.len());
    assert("responses"@.len() != "finalize"@.len());
    assert("responses"@[0] != "challenge"@[0]);
    assert("responses"@.len() != "results"@.len());
    assert("responses"@.len() != "join"@.len());
    assert("responses"@.len() != "start"@.len());
    assert("responses"@.len() != "submissions"@.len());
    assert("finalize"@.len() != "challenge"@.len());
    assert("finalize"@.len() != "results"@.len());
    assert("finalize"@.len() != "join"@.len());
    assert("finalize"@.len() != "start"@.len());
    assert("finalize"@.len() != "submissions"@.len());
    assert("challenge"@.len() != "results"@.len());
    assert("challenge"@.len() != "join"@.len());
    assert("challenge"@.len() != "start"@.len());
    assert("challenge"@.len() != "submissions"@.len());
    assert("results"@.len() != "join"@.len());
    assert("results"@.len() != "start"@.len());
    assert("results"@.len() != "submissions"@.len());
    assert("join"@.len() != "start"@.len());
    assert("join"@.len() != "submissions"@.len());
    assert("start"@.len() != "submissions"@.len());
}

}
