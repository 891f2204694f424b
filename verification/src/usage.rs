//! Usage collection: what an append-only event log records, and when its
//! descriptor has to be reopened.
//!
//! Deliberately absent from every row: display names, addresses and program
//! source. A player identifier is whatever the client claimed; the shape metrics
//! carry the analysis value without archiving a learner's work.

use crate::api::{LessonEventCreate, ResponseOutcome, SubmissionResult};
use crate::cutter::ProgrammingMode;
use crate::domain::TerminalReason;
use crate::number::Real;
use crate::round::{MatchResultRow, MatchResults};
use vstd::prelude::*;

verus! {

/// One recorded interaction.
#[derive(Debug, PartialEq, Eq)]
pub enum UsageEvent {
    /// A program was replayed and scored. The calibration datum.
    Submission {
        /// Epoch milliseconds.
        ts: u64,
        /// Client-asserted player identifier, when one was supplied.
        player_id: Option<String>,
        /// Which item.
        challenge_id: String,
        /// At which version: a response is only interpretable against the
        /// version it was given.
        challenge_version: u32,
        /// Set when the submission belonged to a round.
        match_id: Option<String>,
        /// Set when it belonged to an adaptive session.
        session_id: Option<String>,
        /// Which editor wrote the program. Left out of a row when servo.
        mode: ProgrammingMode,
        /// How the run ended.
        terminal: TerminalReason,
        /// Similarity to the target: the outcome difficulty is fitted on.
        completion_score: Real,
        /// Weighted score.
        final_score: Real,
        /// Program shape.
        blocks: u32,
        /// Atomic commands actually executed.
        commands: u32,
        /// Estimated wall-clock length of the program.
        duration_ms: Real,
    },
    /// An adaptive session recorded a response, moving the ability estimate.
    SessionResponse {
        /// Epoch milliseconds.
        ts: u64,
        /// Which session.
        session_id: String,
        /// Which item was answered.
        challenge_id: String,
        /// Which editor the session is practised in. Left out when servo.
        mode: ProgrammingMode,
        /// Raw score before the mastery remap.
        raw_score: Real,
        /// Whether it counted as correct after remapping.
        correct: bool,
        /// Ability estimate afterwards.
        theta: Real,
        /// Standard error afterwards.
        standard_error: Real,
    },
    /// A round closed and published standings.
    MatchResults {
        /// Epoch milliseconds.
        ts: u64,
        /// Which round.
        match_id: String,
        /// The item everyone faced.
        challenge_id: String,
        /// At which version.
        challenge_version: u32,
        /// Which editor the round was played in. Left out when servo.
        mode: ProgrammingMode,
        /// How many took part.
        players: usize,
        /// How many got an attempt in before the deadline.
        submitted: usize,
        /// Best completion score in the round.
        top_completion: Real,
    },
    /// Something happened in a lesson.
    Lesson {
        /// Epoch milliseconds.
        ts: u64,
        /// Client-asserted player identifier, when one was supplied.
        player_id: Option<String>,
        /// What happened.
        event: LessonEventCreate,
    },
}

/// How many rows hold a submission.
pub open spec fn submitted_rows(rows: Seq<MatchResultRow>) -> nat
    decreases rows.len(),
{
    if rows.len() == 0 {
        0
    } else {
        submitted_rows(rows.drop_last()) + if rows.last().submission_id is Some {
            1nat
        } else {
            0
        }
    }
}

/// The largest completion score of some rows, and zero without any. One that is no
/// number counts only where there is no other.
pub open spec fn best_completion(rows: Seq<MatchResultRow>) -> Real
    decreases rows.len(),
{
    if rows.len() == 0 {
        Real { bits: 0 }
    } else {
        let before = best_completion(rows.drop_last());
        let last = rows.last().completion_score;
        if rows.len() == 1 || before.not_a_number() || before.below(last) {
            last
        } else {
            before
        }
    }
}

/// No more rows hold a submission than there are rows.
pub proof fn law_no_more_submissions_than_players(rows: Seq<MatchResultRow>)
    ensures
        submitted_rows(rows) <= rows.len(),
    decreases rows.len(),
{
    if rows.len() > 0 {
        law_no_more_submissions_than_players(rows.drop_last());
    }
}

/// Whether a field naming the mode is left out of a row. Rows that predate the
/// field name none, and mean servo.
pub fn is_servo(mode: ProgrammingMode) -> (r: bool)
    ensures
        r == (mode == ProgrammingMode::Servo),
{
    mode.is_default()
}

impl UsageEvent {
    /// Build the submission event for a scored result.
    pub fn from_submission(
        ts: u64,
        player_id: Option<String>,
        result: &SubmissionResult,
        match_id: Option<String>,
        session_id: Option<String>,
        mode: ProgrammingMode,
    ) -> (r: Self)
        ensures
            r == (UsageEvent::Submission {
                ts,
                player_id,
                challenge_id: result.challenge_id,
                challenge_version: result.challenge_version,
                match_id,
                session_id,
                mode,
                terminal: result.terminal.reason,
                completion_score: result.score.completion_score,
                final_score: result.score.final_score,
                blocks: result.metrics.source_block_count,
                commands: result.metrics.executed_command_count,
                duration_ms: result.metrics.estimated_duration_ms,
            }),
    {
        UsageEvent::Submission {
            ts,
            player_id,
            challenge_id: result.challenge_id.clone(),
            challenge_version: result.challenge_version,
            match_id,
            session_id,
            mode,
            terminal: result.terminal.reason,
            completion_score: result.score.completion_score,
            final_score: result.score.final_score,
            blocks: result.metrics.source_block_count,
            commands: result.metrics.executed_command_count,
            duration_ms: result.metrics.estimated_duration_ms,
        }
    }

    /// Build the event for a response recorded by an adaptive session.
    pub fn from_response(
        ts: u64,
        session_id: &str,
        challenge_id: &str,
        mode: ProgrammingMode,
        outcome: &ResponseOutcome,
    ) -> (r: Self)
        ensures
            r matches UsageEvent::SessionResponse {
                ts: at,
                session_id: session,
                challenge_id: challenge,
                mode: editor,
                raw_score,
                correct,
                theta,
                standard_error,
            } && at == ts && session@ == session_id@ && challenge@ == challenge_id@ && editor == mode
                && raw_score == outcome.raw_score && correct == outcome.correct && theta
                == outcome.theta && standard_error == outcome.standard_error,
    {
        UsageEvent::SessionResponse {
            ts,
            session_id: session_id.to_owned(),
            challenge_id: challenge_id.to_owned(),
            mode,
            raw_score: outcome.raw_score,
            correct: outcome.correct,
            theta: outcome.theta,
            standard_error: outcome.standard_error,
        }
    }

    /// Build the event for published standings.
    pub fn from_results(ts: u64, results: &MatchResults) -> (r: Self)
        ensures
            r matches UsageEvent::MatchResults {
                ts: at,
                match_id,
                challenge_id,
                challenge_version,
                mode,
                players,
                submitted,
                top_completion,
            } && at == ts && match_id == results.match_id && challenge_id == results.challenge_id
                && challenge_version == results.challenge_version && mode == results.programming_mode
                && players == results.rows@.len() && submitted == submitted_rows(results.rows@)
                && top_completion == best_completion(results.rows@),
    {
        let mut submitted: usize = 0;
        let mut top_completion = Real::zero();
        for i in 0..results.rows.len()
            invariant
                submitted == submitted_rows(results.rows@.take(i as int)),
                submitted <= i,
                top_completion == best_completion(results.rows@.take(i as int)),
        {
            let score = results.rows[i].completion_score;
            if i == 0 || top_completion.is_nan() || top_completion.lt(score) {
                top_completion = score;
            }
            if results.rows[i].submission_id.is_some() {
                submitted = submitted + 1;
            }
            assert(results.rows@.take(i + 1).drop_last() =~= results.rows@.take(i as int));
        }
        assert(results.rows@.take(results.rows@.len() as int) =~= results.rows@);
        UsageEvent::MatchResults {
            ts,
            match_id: results.match_id.clone(),
            challenge_id: results.challenge_id.clone(),
            challenge_version: results.challenge_version,
            mode: results.programming_mode,
            players: results.rows.len(),
            submitted,
            top_completion,
        }
    }

    /// Build the event for something that happened in a lesson.
    pub fn from_lesson(ts: u64, player_id: Option<String>, event: LessonEventCreate) -> (r: Self)
        ensures
            r == (UsageEvent::Lesson { ts, player_id, event }),
    {
        UsageEvent::Lesson { ts, player_id, event }
    }
}

/// The best completion score is that of one of the rows, and no row has a larger one,
/// whichever metric ranked them.
pub proof fn law_the_best_completion_is_the_largest(rows: Seq<MatchResultRow>)
    requires
        rows.len() > 0,
        forall|i: int|
            0 <= i < rows.len() ==> !(#[trigger] rows[i]).completion_score.not_a_number(),
    ensures
        exists|i: int|
            0 <= i < rows.len() && (#[trigger] rows[i]).completion_score == best_completion(rows),
        forall|i: int|
            0 <= i < rows.len() ==> (#[trigger] rows[i]).completion_score.at_most(
                best_completion(rows),
            ),
    decreases rows.len(),
{
    let last = rows.len() - 1;
    assert(rows.last() == rows[last]);
    if rows.len() > 1 {
        let before = rows.drop_last();
        assert forall|i: int| 0 <= i < before.len() implies !(
        #[trigger] before[i]).completion_score.not_a_number() by {
            assert(before[i] == rows[i]);
        }
        law_the_best_completion_is_the_largest(before);
        let k = choose|k: int|
            0 <= k < before.len() && (#[trigger] before[k]).completion_score == best_completion(before);
        assert(rows[k] == before[k]);
        assert forall|i: int| 0 <= i < rows.len() implies (
        #[trigger] rows[i]).completion_score.at_most(best_completion(rows)) by {
            if i < last {
                assert(before[i] == rows[i]);
                assert(before[i].completion_score.at_most(best_completion(before)));
            }
        }
    }
}

/// Identity of a file, so rotation can be noticed.
///
/// A path is not an identity: a rename moves the name and leaves the file where
/// it was, which is why a held descriptor keeps writing into the archive.
#[derive(Clone, Copy, Debug, PartialEq, Eq, Structural)]
pub struct FileId {
    /// Device the file is on.
    pub device: u64,
    /// Its number on that device.
    pub inode: u64,
}

/// Whether a log has to be reopened: the descriptor no longer refers to what
/// the path names. A path that names nothing was rotated away without a
/// replacement, and reopening recreates it. Without an identity to compare, the
/// descriptor is kept.
pub fn must_reopen(open: Option<FileId>, current: Option<FileId>) -> (r: bool)
    ensures
        r == (open is Some && current != open),
{
    match open {
        Some(open) => match current {
            Some(current) => current != open,
            None => true,
        },
        None => false,
    }
}

/// Remembers whether a failure to write was reported, so a broken disk is
/// reported once, not once per request.
#[derive(Debug)]
pub struct FailureNotice {
    reported: bool,
}

impl View for FailureNotice {
    type V = bool;

    closed spec fn view(&self) -> bool {
        self.reported
    }
}

impl FailureNotice {
    /// Nothing reported yet.
    pub fn new() -> (r: Self)
        ensures
            !r@,
    {
        FailureNotice { reported: false }
    }

    /// Whether this failure is to be reported: the first one is.
    pub fn report(&mut self) -> (r: bool)
        ensures
            r == !old(self)@,
            final(self)@,
    {
        let first = !self.reported;
        self.reported = true;
        first
    }
}


/// A row counts as a submission exactly when it carries one.
pub proof fn law_a_row_with_a_submission_counts_once(rows: Seq<MatchResultRow>, row: MatchResultRow)
    ensures
        submitted_rows(Seq::empty()) == 0,
        row.submission_id is Some ==> submitted_rows(rows.push(row)) == submitted_rows(rows) + 1,
        row.submission_id is None ==> submitted_rows(rows.push(row)) == submitted_rows(rows),
{
    assert(rows.push(row).drop_last() =~= rows);
}

}
