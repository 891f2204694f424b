//! Competitive rounds.
//!
//! Deadlines are judged by the server clock, which every call is handed, so the
//! boundary cases are exact.

use std::collections::HashSet;

use hcr::api::{ReplayInfo, SubmissionResult, SubmissionStatus};
use hcr::cutter::ProgrammingMode;
use hcr::domain::{ProgramMetrics, ScoreResult, Terminal};
use hcr::error::ServiceError;
use hcr::number::Real;
use hcr::round::{MatchChallengeRef, MatchConfig, MatchPhase, MatchRejection, RankBy};
use hcr::rounds::{derive_code, key_of, random_key, MatchRegistry, CODE_LEN};
use hcr::usage::UsageEvent;
use hcr::wire::HcrErrorCode;

const T0: u64 = 1_700_000_000_000;

fn float(value: f64) -> Real {
    Real { bits: value.to_bits() }
}

fn easy() -> MatchChallengeRef {
    MatchChallengeRef { challenge_id: "easy".to_string(), version: 1 }
}

fn config(duration_ms: u64) -> MatchConfig {
    MatchConfig {
        duration_ms,
        rank_by: RankBy::Completion,
        max_players: 4,
        min_submit_interval_ms: 0,
        challenge_ref: Some(easy()),
        programming_mode: ProgrammingMode::Servo,
    }
}

/// A scored submission, built directly so ranking can be tested precisely. The
/// final score is the inverse of completion, so a test can tell which metric
/// the ranking used.
fn scored(id: &str, completion: f64, efficiency: f64, duration_ms: f64) -> SubmissionResult {
    SubmissionResult {
        submission_id: id.to_string(),
        challenge_id: "easy".to_string(),
        challenge_version: 1,
        status: SubmissionStatus::Completed,
        programming_mode: ProgrammingMode::Servo,
        score: ScoreResult {
            completion_score: float(completion),
            efficiency_score: float(efficiency),
            time_score: float(100.0),
            final_score: float(100.0 - completion),
            program_cost: float(1.0),
        },
        metrics: ProgramMetrics {
            source_block_count: 1,
            executed_command_count: 1,
            estimated_duration_ms: float(duration_ms),
        },
        result_voxels_hash: "0".repeat(64),
        terminal: Terminal::completed(),
        replay: ReplayInfo {
            engine_version: "test".to_string(),
            tick_ms: float(5.0),
            simulated_ms: float(duration_ms),
            diverged_from_client: false,
        },
        error: None,
    }
}

fn registry_with_players(players: &[&str]) -> (MatchRegistry, String) {
    let mut registry = MatchRegistry::new();
    let state = registry.create(config(60_000), easy(), T0).unwrap();
    for player in players {
        registry.join(&state.match_id, player, player, T0).unwrap();
    }
    registry.start(&state.match_id, T0).unwrap();
    (registry, state.match_id)
}

#[test]
fn a_player_submitting_too_fast_is_throttled() {
    let mut registry = MatchRegistry::new();
    let state = registry
        .create(MatchConfig { min_submit_interval_ms: 2_000, ..config(60_000) }, easy(), T0)
        .unwrap();
    registry.join(&state.match_id, "alice", "Alice", T0).unwrap();
    registry.start(&state.match_id, T0).unwrap();

    assert!(
        registry
            .submit(&state.match_id, "alice", &scored("s1", 50.0, 50.0, 100.0), T0)
            .unwrap()
            .accepted
    );
    assert_eq!(
        registry
            .submit(&state.match_id, "alice", &scored("s2", 60.0, 50.0, 100.0), T0 + 500)
            .unwrap()
            .rejected_reason,
        Some(MatchRejection::RateLimited)
    );
    assert!(
        registry
            .submit(&state.match_id, "alice", &scored("s3", 60.0, 50.0, 100.0), T0 + 2_500)
            .unwrap()
            .accepted
    );
}

#[test]
fn the_best_attempt_counts_not_the_last() {
    let (mut registry, match_id) = registry_with_players(&["alice"]);

    registry.submit(&match_id, "alice", &scored("good", 90.0, 50.0, 100.0), T0).unwrap();
    registry.submit(&match_id, "alice", &scored("bad", 10.0, 50.0, 100.0), T0).unwrap();

    let results = registry.results(&match_id, T0 + 60_001).unwrap();

    assert_eq!(results.rows[0].completion_score, float(90.0));
    assert_eq!(results.rows[0].submission_id.as_deref(), Some("good"));
}

#[test]
fn ranking_uses_completion_not_the_weighted_score() {
    let (mut registry, match_id) = registry_with_players(&["alice", "bob"]);

    registry.submit(&match_id, "alice", &scored("a", 90.0, 50.0, 100.0), T0).unwrap();
    registry.submit(&match_id, "bob", &scored("b", 40.0, 50.0, 100.0), T0).unwrap();

    let results = registry.results(&match_id, T0 + 60_001).unwrap();

    assert_eq!(results.rank_by, RankBy::Completion);
    assert_eq!(results.rows[0].player_id, "alice");
    assert_eq!(results.rows[1].player_id, "bob");
    // The weighted score is still reported, just not used for ordering.
    assert!(results.rows[0].final_score.lt(results.rows[1].final_score));
}

#[test]
fn ties_break_on_efficiency_then_duration() {
    let (mut registry, match_id) = registry_with_players(&["alice", "bob", "carol"]);

    // Identical completion; efficiency separates alice, duration separates the rest.
    registry.submit(&match_id, "alice", &scored("a", 80.0, 90.0, 500.0), T0).unwrap();
    registry.submit(&match_id, "bob", &scored("b", 80.0, 50.0, 200.0), T0).unwrap();
    registry.submit(&match_id, "carol", &scored("c", 80.0, 50.0, 900.0), T0).unwrap();

    let ranked: Vec<String> = registry
        .results(&match_id, T0 + 60_001)
        .unwrap()
        .rows
        .into_iter()
        .map(|row| row.player_id)
        .collect();

    assert_eq!(ranked, vec!["alice", "bob", "carol"]);
}

#[test]
fn a_player_who_never_submits_is_ranked_last_not_omitted() {
    let (mut registry, match_id) = registry_with_players(&["alice", "ghost"]);

    registry.submit(&match_id, "alice", &scored("a", 30.0, 50.0, 100.0), T0).unwrap();

    let results = registry.results(&match_id, T0 + 60_001).unwrap();

    assert_eq!(results.rows.len(), 2);
    assert_eq!(results.rows[1].player_id, "ghost");
    assert_eq!(results.rows[1].rank, 2);
    assert_eq!(results.rows[1].completion_score, float(0.0));
    assert!(results.rows[1].submission_id.is_none());
}

#[test]
fn ranking_by_final_score_is_available_as_a_setting() {
    let mut registry = MatchRegistry::new();
    let state = registry
        .create(MatchConfig { rank_by: RankBy::Final, ..config(60_000) }, easy(), T0)
        .unwrap();
    registry.join(&state.match_id, "alice", "Alice", T0).unwrap();
    registry.join(&state.match_id, "bob", "Bob", T0).unwrap();
    registry.start(&state.match_id, T0).unwrap();

    registry.submit(&state.match_id, "alice", &scored("a", 90.0, 50.0, 100.0), T0).unwrap();
    registry.submit(&state.match_id, "bob", &scored("b", 40.0, 50.0, 100.0), T0).unwrap();

    let results = registry.results(&state.match_id, T0 + 60_001).unwrap();

    // The final score is 100 - completion here, so the order flips.
    assert_eq!(results.rows[0].player_id, "bob");
}

#[test]
fn the_logged_score_is_the_best_completion_whatever_ranked_the_round() {
    let mut registry = MatchRegistry::new();
    let state = registry
        .create(MatchConfig { rank_by: RankBy::Final, ..config(60_000) }, easy(), T0)
        .unwrap();
    for player in ["alice", "bob", "carol"] {
        registry.join(&state.match_id, player, player, T0).unwrap();
    }
    registry.start(&state.match_id, T0).unwrap();
    registry.submit(&state.match_id, "alice", &scored("a", 90.0, 50.0, 100.0), T0).unwrap();
    registry.submit(&state.match_id, "bob", &scored("b", 40.0, 50.0, 100.0), T0).unwrap();

    let results = registry.results(&state.match_id, T0 + 60_001).unwrap();
    assert_eq!(results.rows[0].completion_score, float(40.0));
    match UsageEvent::from_results(T0, &results) {
        UsageEvent::MatchResults { players, submitted, top_completion, .. } => {
            assert_eq!((players, submitted, top_completion), (3, 2, float(90.0)));
        }
        other => panic!("{other:?}"),
    }

    let empty = registry.create(config(1), easy(), T0).unwrap().match_id;
    registry.start(&empty, T0).unwrap();
    match UsageEvent::from_results(T0, &registry.results(&empty, T0 + 1).unwrap()) {
        UsageEvent::MatchResults { players, top_completion, .. } => {
            assert_eq!((players, top_completion), (0, float(0.0)));
        }
        other => panic!("{other:?}"),
    }
}

#[test]
fn room_codes_are_short_unambiguous_and_unique() {
    let mut registry = MatchRegistry::new();

    let codes: Vec<String> = (0..200)
        .map(|_| registry.create(config(60_000), easy(), T0).unwrap().match_id)
        .collect();

    for code in &codes {
        // A code has to survive being read out loud, so no I/O/0/1 and nothing
        // case-sensitive to get wrong.
        assert_eq!(code.len(), 6, "{code}");
        assert!(
            code.chars().all(|c| c.is_ascii_uppercase() && !matches!(c, 'I' | 'O')
                || matches!(c, '2'..='9')),
            "{code}"
        );
    }

    let unique: HashSet<&String> = codes.iter().collect();
    assert_eq!(unique.len(), codes.len(), "codes collided");
}

#[test]
fn room_codes_are_not_sequential() {
    let open = || MatchRegistry::new().create(config(60_000), easy(), T0).unwrap().match_id;

    // Two fresh registries each open their *first* room.
    assert_ne!(open(), open());
}

#[test]
fn a_room_code_is_drawn_from_the_authenticated_counter() {
    assert_eq!(derive_code(b"", 0), "VX2L4U");
    assert_eq!(CODE_LEN, 6);
    assert_eq!(derive_code(b"key", 1), "2HUHR3");
    assert_eq!(derive_code(b"0123456789abcdef0123456789abcdef", (1 << 40) + 7), "CTMLNL");
}

#[test]
fn a_key_is_the_bytes_of_its_words() {
    let key = key_of([0x0102_0304_0506_0708, 0, u64::MAX, 9]);
    let mut expected = vec![1, 2, 3, 4, 5, 6, 7, 8];
    expected.extend([0; 8]);
    expected.extend([255; 8]);
    expected.extend([0, 0, 0, 0, 0, 0, 0, 9]);
    assert_eq!(key, expected);
}

#[test]
fn registry_keys_are_drawn_afresh() {
    let (a, b) = (random_key(), random_key());
    assert_eq!(a.len(), 32);
    assert_ne!(a, b);
}

#[test]
fn finished_and_abandoned_rounds_are_reclaimed_but_running_ones_are_not() {
    let mut registry = MatchRegistry::new();
    let abandoned = registry.create(config(60_000), easy(), T0).unwrap().match_id;
    let running = registry.create(config(60_000), easy(), T0).unwrap().match_id;
    registry.join(&running, "alice", "Alice", T0).unwrap();
    registry.start(&running, T0).unwrap();

    // An hour on: the lobby nobody started is gone; the round in progress is not.
    let evicted = registry.evict_idle(T0 + 3_600_000, 15 * 60_000, 30 * 60_000);
    assert_eq!(evicted, vec![abandoned.clone()]);
    assert!(registry.state(&running, T0).is_ok());
    assert!(registry.state(&abandoned, T0).is_err());

    // Once it closes it becomes a result, and is kept only for the retention
    // window: long enough to read the scoreboard.
    registry.state(&running, T0 + 3_600_000).unwrap();
    assert!(registry.evict_idle(T0 + 3_600_000, 15 * 60_000, 30 * 60_000).is_empty());
    assert_eq!(
        registry.evict_idle(T0 + 3_600_000 + 16 * 60_000, 15 * 60_000, 30 * 60_000),
        vec![running]
    );
    assert!(registry.is_empty());
}

#[test]
fn reading_a_scoreboard_keeps_it_alive() {
    let mut registry = MatchRegistry::new();
    let match_id = registry.create(config(1_000), easy(), T0).unwrap().match_id;
    registry.join(&match_id, "alice", "Alice", T0).unwrap();
    registry.start(&match_id, T0).unwrap();

    registry.state(&match_id, T0 + 2_000).unwrap(); // settles to Results

    // Somebody is still watching at +14 minutes.
    registry.state(&match_id, T0 + 14 * 60_000).unwrap();

    // So at +20 minutes it has still only been idle for 6.
    assert!(registry.evict_idle(T0 + 20 * 60_000, 15 * 60_000, 30 * 60_000).is_empty());
    assert_eq!(registry.evict_idle(T0 + 30 * 60_000, 15 * 60_000, 30 * 60_000).len(), 1);
}

#[test]
fn a_full_lobby_turns_newcomers_away_but_not_its_own_players() {
    let mut registry = MatchRegistry::new();
    let room = registry
        .create(MatchConfig { max_players: 1, ..config(1_000) }, easy(), T0)
        .unwrap()
        .match_id;
    registry.join(&room, "alice", "Alice", T0).unwrap();
    assert_eq!(registry.join(&room, "bob", "Bob", T0), Err(ServiceError::RateLimited));
    let again = registry.join(&room, "alice", "Alicia", T0).unwrap();
    assert_eq!(again.players.len(), 1);
    assert_eq!(again.players[0].display_name, "Alicia");
}

#[test]
fn a_running_round_closes_its_duration_after_it_opened() {
    let mut registry = MatchRegistry::new();
    let match_id = registry.create(config(60_000), easy(), 1).unwrap().match_id;
    registry.join(&match_id, "ada", "Ada", 2).unwrap();
    let waiting = registry.state(&match_id, 5).unwrap();
    assert_eq!((waiting.opens_at, waiting.closes_at), (None, None));
    let started = registry.start(&match_id, 1_000).unwrap();
    assert_eq!(started.phase, MatchPhase::Running);
    let duration = started.config.duration_ms;
    assert_eq!((started.opens_at, started.closes_at), (Some(1_000), Some(1_000 + duration)));
    registry.submit(&match_id, "ada", &scored("s", 50.0, 50.0, 10.0), 1_001).unwrap();
    let seen = registry.state(&match_id, 1_000 + duration - 1).unwrap();
    assert_eq!((seen.phase, seen.closes_at), (MatchPhase::Running, Some(1_000 + duration)));
    let closed = registry.state(&match_id, 1_000 + duration).unwrap();
    assert_eq!((closed.phase, closed.closes_at), (MatchPhase::Results, Some(1_000 + duration)));
}

#[test]
fn submissions_are_judged_by_their_arrival() {
    let (mut registry, room) = registry_with_players(&["alice"]);
    let inside = registry
        .submit(&room, "alice", &scored("s1", 50.0, 50.0, 1.0), T0 + 59_999)
        .unwrap();
    assert!(inside.accepted);
    assert_eq!(inside.server_received_at, T0 + 59_999);
    let outside = registry
        .submit(&room, "alice", &scored("s2", 50.0, 50.0, 1.0), T0 + 60_001)
        .unwrap();
    assert!(!outside.accepted);
    assert_eq!(outside.rejected_reason, Some(MatchRejection::AfterDeadline));
}

#[test]
fn each_refusal_is_named() {
    let (mut registry, room) = registry_with_players(&["alice"]);
    let reason = |registry: &mut MatchRegistry, player: &str, result: &SubmissionResult| {
        registry.submit(&room, player, result, T0).unwrap().rejected_reason
    };
    assert_eq!(
        reason(&mut registry, "mallory", &scored("x", 1.0, 1.0, 1.0)),
        Some(MatchRejection::NotParticipant)
    );
    let mut other = scored("x", 1.0, 1.0, 1.0);
    other.challenge_id = "hard".to_string();
    assert_eq!(reason(&mut registry, "alice", &other), Some(MatchRejection::WrongChallenge));
    let mut grid = scored("x", 1.0, 1.0, 1.0);
    grid.programming_mode = ProgrammingMode::CutterGrid;
    assert_eq!(reason(&mut registry, "alice", &grid), Some(MatchRejection::WrongProgrammingMode));

    let lobby = registry.create(config(1_000), easy(), T0).unwrap().match_id;
    registry.join(&lobby, "alice", "Alice", T0).unwrap();
    assert_eq!(
        registry
            .submit(&lobby, "alice", &scored("x", 1.0, 1.0, 1.0), T0)
            .unwrap()
            .rejected_reason,
        Some(MatchRejection::WrongPhase)
    );
    assert!(registry.submit("NOROOM", "alice", &scored("x", 1.0, 1.0, 1.0), T0).is_err());
}

#[test]
fn nothing_is_revealed_or_published_early() {
    let mut registry = MatchRegistry::new();
    let room = registry.create(config(60_000), easy(), T0).unwrap().match_id;
    let early = registry.challenge_ref(&room, T0).unwrap_err();
    assert_eq!(early.code(), HcrErrorCode::MatchNotReady);
    assert!(early.message().contains("revealed when the round starts"), "{}", early.message());
    registry.join(&room, "alice", "Alice", T0).unwrap();
    let started = registry.start(&room, T0).unwrap();
    assert_eq!(started.phase, MatchPhase::Running);
    assert_eq!(started.opens_at, Some(T0));
    assert_eq!(started.closes_at, Some(T0 + 60_000));
    assert_eq!(registry.challenge_ref(&room, T0).unwrap().challenge_id, "easy");
    let running = registry.results(&room, T0 + 59_999).unwrap_err();
    assert_eq!(running.code(), HcrErrorCode::MatchNotReady);
    assert!(running.message().contains("published when the round closes"));
    assert_eq!(registry.join(&room, "late", "Late", T0), Err(ServiceError::SessionTerminated));
    assert_eq!(registry.start(&room, T0), Err(ServiceError::SessionTerminated));
}

#[test]
fn a_cancelled_round_stays_cancelled() {
    let mut registry = MatchRegistry::new();
    let room = registry.create(config(60_000), easy(), T0).unwrap().match_id;
    assert_eq!(registry.cancel(&room, T0).unwrap().phase, MatchPhase::Cancelled);
    assert!(registry.start(&room, T0).is_err());
    assert_eq!(registry.state(&room, T0 + 120_000).unwrap().phase, MatchPhase::Cancelled);
    assert_eq!(registry.len(), 1);
    assert!(registry.can_start("NOROOM", T0));
    assert!(registry.start("NOROOM", T0).is_err());
}

#[test]
fn a_round_that_would_close_past_the_end_of_time_cannot_start() {
    let mut registry = MatchRegistry::new();
    let room = registry.create(config(u64::MAX), easy(), T0).unwrap().match_id;
    assert!(!registry.can_start(&room, T0));
    let room = registry.create(config(60_000), easy(), T0).unwrap().match_id;
    assert!(registry.can_start(&room, T0));
}
