//! Competitive rounds: what travels on the wire.

use crate::cutter::ProgrammingMode;
use crate::domain::ProgramMetrics;
use crate::number::Real;
use vstd::prelude::*;

verus! {

/// Lifecycle of a round.
#[derive(Clone, Copy, Debug, PartialEq, Eq, Structural)]
pub enum MatchPhase {
    /// Open for joining; the challenge is not yet known to anyone.
    Lobby,
    /// Start has been called; participants are fixed.
    Countdown,
    /// The challenge is revealed and submissions are accepted.
    Running,
    /// The deadline has passed and results are being assembled.
    Grading,
    /// Final standings published.
    Results,
    /// Abandoned before it ran.
    Cancelled,
}

/// What decides the winner.
#[derive(Clone, Copy, Debug, PartialEq, Eq, Structural)]
pub enum RankBy {
    /// Voxel overlap with the target: most similar to the target wins.
    Completion,
    /// The full weighted score.
    Final,
}

impl Default for RankBy {
    fn default() -> (r: RankBy)
        ensures
            r == RankBy::Completion,
    {
        RankBy::Completion
    }
}

/// A pinned challenge for a round.
#[derive(Debug, PartialEq, Eq)]
pub struct MatchChallengeRef {
    /// Which challenge.
    pub challenge_id: String,
    /// Which version.
    pub version: u32,
}

impl Clone for MatchChallengeRef {
    fn clone(&self) -> (r: Self)
        ensures
            r == *self,
    {
        MatchChallengeRef { challenge_id: self.challenge_id.clone(), version: self.version }
    }
}

/// Round settings.
#[derive(Debug, PartialEq, Eq)]
pub struct MatchConfig {
    /// Wall-clock length of the round.
    pub duration_ms: u64,
    /// Ranking metric.
    pub rank_by: RankBy,
    /// Cap on participants.
    pub max_players: usize,
    /// Minimum gap between one player's submissions.
    pub min_submit_interval_ms: u64,
    /// Pin a specific challenge. When absent the server picks one, and every
    /// participant gets the identical item either way.
    pub challenge_ref: Option<MatchChallengeRef>,
    /// Which editor the round is played in. Everyone uses the same one.
    pub programming_mode: ProgrammingMode,
}

impl Clone for MatchConfig {
    fn clone(&self) -> (r: Self)
        ensures
            r == *self,
    {
        let challenge_ref = match &self.challenge_ref {
            Some(pinned) => Some(pinned.clone()),
            None => None,
        };
        MatchConfig {
            duration_ms: self.duration_ms,
            rank_by: self.rank_by,
            max_players: self.max_players,
            min_submit_interval_ms: self.min_submit_interval_ms,
            challenge_ref,
            programming_mode: self.programming_mode,
        }
    }
}

impl Default for MatchConfig {
    /// Five minutes, ranked by completion, sixteen players, two seconds between
    /// submissions, nothing pinned, servo programs.
    fn default() -> (r: MatchConfig)
        ensures
            r == (MatchConfig {
                duration_ms: 300_000,
                rank_by: RankBy::Completion,
                max_players: 16,
                min_submit_interval_ms: 2_000,
                challenge_ref: None,
                programming_mode: ProgrammingMode::Servo,
            }),
    {
        MatchConfig {
            duration_ms: 300_000,
            rank_by: RankBy::Completion,
            max_players: 16,
            min_submit_interval_ms: 2_000,
            challenge_ref: None,
            programming_mode: ProgrammingMode::Servo,
        }
    }
}

/// A participant.
#[derive(Debug, PartialEq, Eq)]
pub struct MatchPlayer {
    /// Player identity.
    pub player_id: String,
    /// Display name.
    pub display_name: String,
    /// Whether they are currently connected.
    pub connected: bool,
    /// Whether they have submitted at least once.
    pub submitted: bool,
}

impl Clone for MatchPlayer {
    fn clone(&self) -> (r: Self)
        ensures
            r == *self,
    {
        MatchPlayer {
            player_id: self.player_id.clone(),
            display_name: self.display_name.clone(),
            connected: self.connected,
            submitted: self.submitted,
        }
    }
}

/// A participant, by value.
pub struct PlayerView {
    /// Player identity.
    pub player_id: Seq<char>,
    /// Display name.
    pub display_name: Seq<char>,
    /// Whether they are currently connected.
    pub connected: bool,
    /// Whether they have submitted at least once.
    pub submitted: bool,
}

impl View for MatchPlayer {
    type V = PlayerView;

    open spec fn view(&self) -> PlayerView {
        PlayerView {
            player_id: self.player_id@,
            display_name: self.display_name@,
            connected: self.connected,
            submitted: self.submitted,
        }
    }
}

/// Participants, by value.
pub open spec fn players_view(players: Seq<MatchPlayer>) -> Seq<PlayerView> {
    Seq::new(players.len(), |i: int| players[i]@)
}

/// Public state of a round.
#[derive(Debug, PartialEq, Eq)]
pub struct MatchState {
    /// Round identity.
    pub match_id: String,
    /// Lifecycle position.
    pub phase: MatchPhase,
    /// Settings.
    pub config: MatchConfig,
    /// When the round opened, server epoch milliseconds.
    pub opens_at: Option<u64>,
    /// When it closes, server epoch milliseconds. Authoritative: acceptance is
    /// decided by server receive time against it.
    pub closes_at: Option<u64>,
    /// Server clock at the moment this state was produced.
    pub server_time: u64,
    /// Participants.
    pub players: Vec<MatchPlayer>,
}

/// Public state of a round, by value.
pub struct MatchStateView {
    /// Round identity.
    pub match_id: Seq<char>,
    /// Lifecycle position.
    pub phase: MatchPhase,
    /// Settings.
    pub config: MatchConfig,
    /// When the round opened.
    pub opens_at: Option<u64>,
    /// When it closes.
    pub closes_at: Option<u64>,
    /// Server clock at the moment this state was produced.
    pub server_time: u64,
    /// Participants.
    pub players: Seq<PlayerView>,
}

impl View for MatchState {
    type V = MatchStateView;

    open spec fn view(&self) -> MatchStateView {
        MatchStateView {
            match_id: self.match_id@,
            phase: self.phase,
            config: self.config,
            opens_at: self.opens_at,
            closes_at: self.closes_at,
            server_time: self.server_time,
            players: players_view(self.players@),
        }
    }
}

/// Why a submission was turned away.
#[derive(Clone, Copy, Debug, PartialEq, Eq, Structural)]
pub enum MatchRejection {
    /// Arrived after the deadline, by the server's clock.
    AfterDeadline,
    /// The player is submitting faster than the configured interval.
    RateLimited,
    /// The submitter is not in this round.
    NotParticipant,
    /// The round is not accepting submissions.
    WrongPhase,
    /// The submission scored a different challenge from the round's.
    WrongChallenge,
    /// The submission was written in a different editor from the round's.
    WrongProgrammingMode,
}

/// Response to a submission during a round.
///
/// Carries no score: revealing standings during the round would let a player
/// refine against a known bar.
#[derive(Debug, PartialEq, Eq)]
pub struct MatchSubmissionAck {
    /// Which submission.
    pub submission_id: String,
    /// Whether it counts.
    pub accepted: bool,
    /// Server receive time, the value the deadline was judged against.
    pub server_received_at: u64,
    /// Why not, when refused.
    pub rejected_reason: Option<MatchRejection>,
}

/// One player's standing.
#[derive(Debug, PartialEq, Eq)]
pub struct MatchResultRow {
    /// Final placing, counted from one.
    pub rank: u32,
    /// Player identity.
    pub player_id: String,
    /// Display name.
    pub display_name: String,
    /// Similarity to the target.
    pub completion_score: Real,
    /// Weighted score, reported even when ranking on completion.
    pub final_score: Real,
    /// Program size and timing.
    pub metrics: ProgramMetrics,
    /// The submission that counted; absent when the player never submitted.
    pub submission_id: Option<String>,
    /// When it arrived, so a disputed deadline is checkable after the fact.
    pub server_received_at: Option<u64>,
}

/// Final standings.
#[derive(Debug, PartialEq, Eq)]
pub struct MatchResults {
    /// Round identity.
    pub match_id: String,
    /// The challenge everyone faced.
    pub challenge_id: String,
    /// At which version.
    pub challenge_version: u32,
    /// Metric used.
    pub rank_by: RankBy,
    /// Editor the round was played in.
    pub programming_mode: ProgrammingMode,
    /// Standings, best first.
    pub rows: Vec<MatchResultRow>,
}

/// Clock-synchronisation exchange.
#[derive(Clone, Copy, Debug, PartialEq, Eq, Structural)]
pub struct TimeSync {
    /// Echoed back so the client can compute round-trip time.
    pub client_sent_at: u64,
    /// Server clock when the reply was produced.
    pub server_time: u64,
}

}
