//! Requests, replies, origins and the configuration of the server.

use hcr::binding::{
    malformed_body, not_found, planner_not_ready, receive, route, status_for, HttpCall, HttpReply,
    Method, Reception, Route, Verb, CUTTER_GRID_PLAN_REQUEST_MAX_BYTES, LESSON_EVENT_MAX_BYTES,
};
use hcr::cors::{cors_headers, matching_origin, CORS_ALLOW_HEADERS};
use hcr::deploy::{
    occupied_message, ConfigError, ServerConfig, DEFAULT_BINDING, MIN_SIGNING_KEY_LEN,
};
use hcr::error::ServiceError;
use hcr::wire::HcrErrorCode;

fn get(path: &str) -> HttpCall {
    HttpCall::get(path.to_string())
}

fn post(path: &str) -> HttpCall {
    HttpCall::post(path.to_string(), Vec::new())
}

fn status_of(call: &HttpCall) -> u16 {
    match route(call) {
        Ok(_) => 200,
        Err(error) => status_for(error.code()),
    }
}

#[test]
fn only_get_and_post_are_routed() {
    assert!(matches!(receive(Verb::Get), Reception::Dispatch(Method::Get)));
    assert!(matches!(receive(Verb::Post), Reception::Dispatch(Method::Post)));
    assert!(matches!(receive(Verb::Options), Reception::Answer { status: 204, body: "" }));
    match receive(Verb::Other) {
        Reception::Answer { status, body } => {
            assert_eq!(status, 405);
            assert_eq!(
                body,
                r#"{"error":{"code":"FORBIDDEN","message":"Only GET and POST are supported.","retryable":false}}"#
            );
        }
        other => panic!("{other:?}"),
    }
}

#[test]
fn cors_allows_every_frontend_submission_header() {
    for header in [
        "Content-Type",
        "Authorization",
        "X-HCR-Player",
        "X-HCR-Player-Name",
        "X-HCR-Research-Program-And-Scores",
        "X-HCR-Research-Language-Consent",
        "X-HCR-Research-Utc-Offset-Consent",
        "X-HCR-Research-Language",
        "X-HCR-Research-Utc-Offset-Minutes",
    ] {
        assert!(
            CORS_ALLOW_HEADERS
                .split(',')
                .map(str::trim)
                .any(|allowed| allowed.eq_ignore_ascii_case(header)),
            "CORS preflight does not allow {header}"
        );
    }
}

#[test]
fn echoes_only_an_origin_on_the_list() {
    let allowed = Some("https://web.hcr.rs,hcr://app");
    assert_eq!(matching_origin(allowed, Some("https://web.hcr.rs")), Some("https://web.hcr.rs"));
    assert_eq!(matching_origin(allowed, Some("hcr://app")), Some("hcr://app"));
    assert_eq!(matching_origin(allowed, Some("https://evil.test")), None);
}

#[test]
fn tolerates_spacing_in_the_configured_list() {
    let allowed = Some(" https://web.hcr.rs , hcr://app ,, ");
    assert_eq!(matching_origin(allowed, Some("hcr://app")), Some("hcr://app"));
    // An empty entry must never match an empty or absent origin.
    assert_eq!(matching_origin(allowed, Some("")), None);
}

#[test]
fn sends_nothing_when_unconfigured_or_when_the_caller_claims_no_origin() {
    assert_eq!(matching_origin(None, Some("https://web.hcr.rs")), None);
    assert_eq!(matching_origin(Some("https://web.hcr.rs"), None), None);
}

#[test]
fn a_prefix_is_not_a_match() {
    assert_eq!(
        matching_origin(Some("https://web.hcr.rs"), Some("https://web.hcr.rs.evil.test")),
        None
    );
}

#[test]
fn an_allowed_origin_gets_headers_that_vary_by_origin() {
    assert!(cors_headers(None).is_empty());
    let headers = cors_headers(Some("hcr://app"));
    assert!(headers.contains(&("Access-Control-Allow-Origin", "hcr://app")));
    assert!(headers.contains(&("Access-Control-Allow-Methods", "GET, POST, OPTIONS")));
    assert!(headers.contains(&("Access-Control-Allow-Headers", CORS_ALLOW_HEADERS)));
    assert!(headers.contains(&("Vary", "Origin")));
    assert_eq!(headers.len(), 4);
}

#[test]
fn a_rejection_maps_to_unprocessable_content() {
    assert_eq!(status_for(HcrErrorCode::TrajectoryRejected), 422);
}

#[test]
fn error_codes_map_to_the_documented_statuses() {
    assert_eq!(status_for(HcrErrorCode::Unauthorized), 401);
    assert_eq!(status_for(HcrErrorCode::ChallengeNotFound), 404);
    assert_eq!(status_for(HcrErrorCode::ProgramTooLarge), 422);
    assert_eq!(status_for(HcrErrorCode::TrajectoryPlanningFailed), 422);
    assert_eq!(status_for(HcrErrorCode::ItemRefInvalid), 409);
    assert_eq!(status_for(HcrErrorCode::RateLimited), 429);
    assert_eq!(status_for(HcrErrorCode::ReplayTimeout), 504);
    assert_eq!(status_for(HcrErrorCode::Internal), 500);
}

#[test]
fn the_remaining_codes_have_statuses_too() {
    assert_eq!(status_for(HcrErrorCode::Forbidden), 403);
    assert_eq!(status_for(HcrErrorCode::SessionNotFound), 404);
    assert_eq!(status_for(HcrErrorCode::ProgramInvalid), 422);
    assert_eq!(status_for(HcrErrorCode::WeightsInvalid), 422);
    assert_eq!(status_for(HcrErrorCode::MatchNotReady), 409);
    assert_eq!(status_for(HcrErrorCode::SessionTerminated), 409);
}

#[test]
fn unknown_challenges_and_routes_are_404() {
    assert_eq!(status_of(&get("/api/v1/nonsense")), 404);
    assert_eq!(status_of(&get("/")), 404);
    assert_eq!(status_of(&get("/api/v2/challenges")), 404);
    assert_eq!(status_of(&post("/api/v1/challenges")), 404);
    assert_eq!(status_of(&get("/api/v1/sessions/s/next/extra")), 404);
    assert_eq!(
        not_found(),
        ServiceError::ChallengeNotFound { challenge_id: "route".to_string(), version: None }
    );
}

#[test]
fn every_resource_has_its_route() {
    assert!(matches!(route(&get("/api/v1/challenges")), Ok(Route::ListChallenges)));
    assert!(matches!(route(&get("//api//v1/challenges/")), Ok(Route::ListChallenges)));
    match route(&get("/api/v1/challenges/easy")) {
        Ok(Route::GetChallenge { id }) => assert_eq!(id, "easy"),
        other => panic!("{other:?}"),
    }
    match route(&get("/api/v1/challenges/easy/12")) {
        Ok(Route::GetChallengeVersion { id, version }) => {
            assert_eq!(id, "easy");
            assert_eq!(version, 12);
        }
        other => panic!("{other:?}"),
    }
    assert_eq!(status_of(&get("/api/v1/challenges/easy/latest")), 404);
    assert!(matches!(route(&post("/api/v1/sessions/s/next")), Ok(Route::NextItem { .. })));
    assert!(matches!(route(&post("/api/v1/sessions/s/responses")), Ok(Route::Respond { .. })));
    assert!(matches!(
        route(&post("/api/v1/sessions/s/finalize")),
        Ok(Route::FinalizeSession { .. })
    ));
    assert!(matches!(route(&post("/api/v1/score")), Ok(Route::Score)));
    assert!(matches!(route(&post("/api/v1/cutter-grid/plans")), Ok(Route::PlanCutterGrid)));
    assert!(matches!(route(&post("/api/v1/submissions")), Ok(Route::CreateSubmission)));
    assert!(matches!(route(&get("/api/v1/submissions/s-1")), Ok(Route::GetSubmission { .. })));
    assert!(matches!(route(&post("/api/v1/sessions")), Ok(Route::StartSession)));
    assert!(matches!(route(&get("/api/v1/sessions/s")), Ok(Route::GetSession { .. })));
    assert!(matches!(route(&get("/api/v1/time")), Ok(Route::Time)));
    assert!(matches!(route(&post("/api/v1/matches")), Ok(Route::CreateMatch)));
    assert!(matches!(route(&get("/api/v1/matches/m")), Ok(Route::GetMatch { .. })));
    assert!(matches!(route(&get("/api/v1/matches/m/challenge")), Ok(Route::MatchChallenge { .. })));
    assert!(matches!(route(&get("/api/v1/matches/m/results")), Ok(Route::MatchResults { .. })));
    assert!(matches!(route(&post("/api/v1/matches/m/start")), Ok(Route::StartMatch { .. })));
    assert!(matches!(route(&post("/api/v1/usage/lessons")), Ok(Route::RecordLesson)));
}

#[test]
fn joining_without_an_authenticated_player_is_refused() {
    // Identity comes from the auth layer, never the body: otherwise a caller
    // could act as somebody else.
    let error = route(&post("/api/v1/matches/m/join")).unwrap_err();
    assert_eq!(status_for(error.code()), 500);
    assert!(error.message().contains("authenticated player"), "{}", error.message());
}

#[test]
fn submitting_to_a_round_needs_a_player_too() {
    let error = route(&post("/api/v1/matches/m/submissions")).unwrap_err();
    assert_eq!(error.message(), ServiceError::Internal("submitting requires an authenticated player").message());
    let call = post("/api/v1/matches/m/submissions").as_player("p".to_string());
    assert!(matches!(route(&call), Ok(Route::SubmitToMatch { .. })));
}

#[test]
fn an_absent_display_name_falls_back_to_the_player_id() {
    let call = post("/api/v1/matches/m/join").as_player("bob".to_string());
    match route(&call) {
        Ok(Route::JoinMatch { id, player, display_name }) => {
            assert_eq!(id, "m");
            assert_eq!(player, "bob");
            assert_eq!(display_name, "bob");
        }
        other => panic!("{other:?}"),
    }
}

#[test]
fn a_display_name_labels_the_roster_without_becoming_the_identity() {
    let call = post("/api/v1/matches/m/join")
        .as_player_named("u-8f21".to_string(), "Alice".to_string());
    match route(&call) {
        Ok(Route::JoinMatch { player, display_name, .. }) => {
            assert_eq!(display_name, "Alice");
            assert_eq!(player, "u-8f21");
        }
        other => panic!("{other:?}"),
    }
}

#[test]
fn cutter_grid_plan_route_rejects_oversize_input_before_decoding() {
    let mut call = post("/api/v1/cutter-grid/plans");
    call.body = vec![b' '; CUTTER_GRID_PLAN_REQUEST_MAX_BYTES + 1];
    let error = route(&call).unwrap_err();
    assert_eq!(status_for(error.code()), 422);
    assert_eq!(error.code(), HcrErrorCode::ProgramInvalid);

    call.body = vec![b' '; CUTTER_GRID_PLAN_REQUEST_MAX_BYTES];
    assert!(matches!(route(&call), Ok(Route::PlanCutterGrid)));
}

#[test]
fn cutter_grid_plan_route_fails_closed_without_a_registered_profile() {
    let error = planner_not_ready();
    assert_eq!(error.code(), HcrErrorCode::TrajectoryPlanningFailed);
    assert_eq!(HttpReply::failure(&error, Vec::new()).status, 422);
    assert!(error.message().contains("planner-not-ready"));
    let details = error.to_wire().details.expect("planning diagnostics");
    assert!(details.contains(&("plannerCode".to_string(), "planner-not-ready".to_string())));
}

#[test]
fn an_oversized_lesson_event_is_refused_before_it_is_parsed() {
    let mut call = post("/api/v1/usage/lessons");
    call.body = vec![b'x'; LESSON_EVENT_MAX_BYTES + 1];
    assert_eq!(status_of(&call), 422);
}

#[test]
fn a_malformed_body_is_422_not_500() {
    let error = malformed_body("key must be a string");
    assert_eq!(error.code(), HcrErrorCode::ProgramInvalid);
    assert_eq!(error.message(), "Malformed request body: key must be a string");
    let reply = HttpReply::failure(&error, b"{}".to_vec());
    assert_eq!(reply.status, 422);
}

#[test]
fn replies_carry_their_body_and_status() {
    let reply = HttpReply::success(b"{\"ok\":true}".to_vec());
    assert_eq!(reply.status, 200);
    assert_eq!(reply.text(), "{\"ok\":true}");
    let reply = HttpReply::failure(&ServiceError::SessionTerminated, b"no".to_vec());
    assert_eq!(reply.status, 409);
    assert_eq!(reply.text(), "no");
}

#[test]
fn bytes_that_are_not_text_are_shown_with_replacement_characters() {
    let reply = HttpReply::success(vec![b'a', 0xff, b'b']);
    assert_eq!(reply.text(), "a\u{fffd}b");
}

#[test]
fn calls_keep_what_they_were_made_of() {
    let call = HttpCall::post("/api/v1/score".to_string(), b"x".to_vec());
    assert_eq!(call.method, Method::Post);
    assert_eq!(call.body, b"x");
    assert!(call.player_id.is_none());
    assert!(call.display_name.is_none());
    assert_eq!(get("/").method, Method::Get);
}

#[test]
fn a_server_without_a_signing_key_does_not_start() {
    assert_eq!(
        ServerConfig::from_env(None, None, None, None),
        Err(ConfigError::MissingSigningKey)
    );
    assert_eq!(
        ServerConfig::from_env(Some("short".to_string()), None, None, None),
        Err(ConfigError::SigningKeyTooShort { len: 5 })
    );
    assert_eq!(
        ConfigError::SigningKeyTooShort { len: 5 }.message(),
        format!("HCR_SIGNING_KEY is 5 bytes; at least {MIN_SIGNING_KEY_LEN} are required.")
    );
    assert!(ConfigError::MissingSigningKey.message().contains("openssl rand -hex 32"));
}

#[test]
fn settings_are_trimmed_and_defaulted() {
    let key = "k".repeat(32);
    let config = ServerConfig::from_env(
        Some(key.clone()),
        None,
        Some("  hcr://app ".to_string()),
        Some("   ".to_string()),
    )
    .unwrap();
    assert_eq!(config.binding, DEFAULT_BINDING);
    assert_eq!(config.signing_key, key.as_bytes());
    assert_eq!(config.cors_allow_origin.as_deref(), Some("hcr://app"));
    assert!(config.usage_log_path.is_none());
}

#[test]
fn an_occupied_port_is_explained() {
    let text = occupied_message("127.0.0.1:18623");
    assert!(text.starts_with("127.0.0.1:18623 is already in use by another process."));
    assert!(text.contains("ss -lntp | grep 18623\n"));
}
