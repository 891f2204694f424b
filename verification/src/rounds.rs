//! Competitive rounds: all players start together, get the identical
//! challenge, and have a fixed wall-clock window to submit. Highest similarity
//! to the target wins.
//!
//! * The server clock decides acceptance. Every operation takes the server's
//!   time as an argument; a client's own timestamp is never consulted.
//! * Scores stay hidden until the round closes.
//! * Resubmission is unlimited and the best attempt counts.
//! * The challenge is not revealed before the start.

use crate::api::SubmissionResult;
use crate::crypto::{hmac_sha256, hmac_sha256_of};
use crate::domain::ProgramMetrics;
use crate::error::{ServiceError, ServiceResult};
use crate::number::Real;
use crate::round::{
    players_view, MatchChallengeRef, MatchConfig, MatchPhase, MatchPlayer, MatchRejection,
    MatchResultRow, MatchResults, MatchState, MatchStateView, MatchSubmissionAck, PlayerView, RankBy,
};
use crate::table::{strictly_ascending, TextMap};
use crate::text::{
    lemma_text_less_asymmetric, lemma_text_less_irreflexive, lemma_text_less_total,
    lemma_text_less_transitive, less, same, text_less,
};
use std::hash::{BuildHasher, Hasher};
use vstd::prelude::*;

verus! {

/// One player's best accepted attempt.
#[derive(Debug, PartialEq, Eq)]
pub struct Entry {
    /// Which submission.
    pub submission_id: String,
    /// Similarity to the target.
    pub completion_score: Real,
    /// Weighted score.
    pub final_score: Real,
    /// Program economy.
    pub efficiency_score: Real,
    /// Program size and timing.
    pub metrics: ProgramMetrics,
    /// When the server received it.
    pub server_received_at: u64,
}

impl Entry {
    /// The attempt a scored submission makes at a moment.
    pub open spec fn of_result(result: SubmissionResult, now: u64) -> Entry {
        Entry {
            submission_id: result.submission_id,
            completion_score: result.score.completion_score,
            final_score: result.score.final_score,
            efficiency_score: result.score.efficiency_score,
            metrics: result.metrics,
            server_received_at: now,
        }
    }

    /// The score that decides.
    pub open spec fn deciding_score(self, rank_by: RankBy) -> Real {
        match rank_by {
            RankBy::Completion => self.completion_score,
            RankBy::Final => self.final_score,
        }
    }

    /// Whether `self` outranks `other`: the higher deciding score, then the
    /// higher efficiency, then the shorter program, then the earlier arrival.
    pub open spec fn outranks(self, other: Entry, rank_by: RankBy) -> bool {
        let mine = self.deciding_score(rank_by);
        let theirs = other.deciding_score(rank_by);
        if !mine.equals(theirs) {
            theirs.below(mine)
        } else if !self.efficiency_score.equals(other.efficiency_score) {
            other.efficiency_score.below(self.efficiency_score)
        } else if !self.metrics.estimated_duration_ms.equals(other.metrics.estimated_duration_ms) {
            self.metrics.estimated_duration_ms.below(other.metrics.estimated_duration_ms)
        } else {
            self.server_received_at < other.server_received_at
        }
    }

    /// Whether everything an attempt is ranked by is a number.
    pub open spec fn comparable(self) -> bool {
        !self.completion_score.not_a_number() && !self.final_score.not_a_number()
            && !self.efficiency_score.not_a_number()
            && !self.metrics.estimated_duration_ms.not_a_number()
    }

    fn ranking_score(&self, rank_by: RankBy) -> (r: Real)
        ensures
            r == self.deciding_score(rank_by),
    {
        match rank_by {
            RankBy::Completion => self.completion_score,
            RankBy::Final => self.final_score,
        }
    }

    /// Whether `self` outranks `other`, applying the published tie-break.
    pub fn beats(&self, other: &Entry, rank_by: RankBy) -> (r: bool)
        ensures
            r == self.outranks(*other, rank_by),
    {
        let mine = self.ranking_score(rank_by);
        let theirs = other.ranking_score(rank_by);
        if !mine.same(theirs) {
            return theirs.lt(mine);
        }
        if !self.efficiency_score.same(other.efficiency_score) {
            return other.efficiency_score.lt(self.efficiency_score);
        }
        if !self.metrics.estimated_duration_ms.same(other.metrics.estimated_duration_ms) {
            return self.metrics.estimated_duration_ms.lt(other.metrics.estimated_duration_ms);
        }
        self.server_received_at < other.server_received_at
    }
}

/// The tie-break is a strict order on comparable attempts: no attempt outranks
/// itself, and outranking is transitive.
pub proof fn law_outranking_is_a_strict_order(a: Entry, b: Entry, c: Entry, rank_by: RankBy)
    requires
        a.comparable(),
        b.comparable(),
        c.comparable(),
    ensures
        !a.outranks(a, rank_by),
        a.outranks(b, rank_by) ==> !b.outranks(a, rank_by),
        a.outranks(b, rank_by) && b.outranks(c, rank_by) ==> a.outranks(c, rank_by),
{
}

/// Attempts that neither outranks the other rank alike against every third one.
pub proof fn law_tied_attempts_rank_alike(a: Entry, b: Entry, c: Entry, rank_by: RankBy)
    requires
        a.comparable(),
        b.comparable(),
        c.comparable(),
        !a.outranks(b, rank_by),
        !b.outranks(a, rank_by),
    ensures
        a.outranks(c, rank_by) == b.outranks(c, rank_by),
        c.outranks(a, rank_by) == c.outranks(b, rank_by),
{
}

/// A player's place in a round.
#[derive(Debug, PartialEq, Eq)]
pub struct Seat {
    /// Display name.
    pub display_name: String,
    /// Whether they are currently connected.
    pub connected: bool,
    /// Whether they have submitted at least once.
    pub submitted: bool,
    /// Best accepted attempt.
    pub best: Option<Entry>,
    /// When their last accepted submission arrived.
    pub last_submit_at: Option<u64>,
}

/// A player's place in a round, by value.
pub struct SeatView {
    /// Display name.
    pub display_name: Seq<char>,
    /// Whether they are currently connected.
    pub connected: bool,
    /// Whether they have submitted at least once.
    pub submitted: bool,
    /// Best accepted attempt.
    pub best: Option<Entry>,
    /// When their last accepted submission arrived.
    pub last_submit_at: Option<u64>,
}

impl View for Seat {
    type V = SeatView;

    open spec fn view(&self) -> SeatView {
        SeatView {
            display_name: self.display_name@,
            connected: self.connected,
            submitted: self.submitted,
            best: self.best,
            last_submit_at: self.last_submit_at,
        }
    }
}

impl SeatView {
    /// How a seat appears in a listing.
    pub open spec fn listed(self, player_id: Seq<char>) -> PlayerView {
        PlayerView {
            player_id,
            display_name: self.display_name,
            connected: self.connected,
            submitted: self.submitted,
        }
    }
}

/// A live round.
#[derive(Debug)]
pub struct Room {
    phase: MatchPhase,
    config: MatchConfig,
    opens_at: Option<u64>,
    closes_at: Option<u64>,
    settled_at: Option<u64>,
    challenge: MatchChallengeRef,
    seats: TextMap<Seat>,
    last_seen: u64,
}

/// A live round, by value.
pub struct RoomView {
    /// Lifecycle position.
    pub phase: MatchPhase,
    /// Settings.
    pub config: MatchConfig,
    /// When the round opened.
    pub opens_at: Option<u64>,
    /// When it closes.
    pub closes_at: Option<u64>,
    /// Server time at which it moved on to its results.
    pub settled_at: Option<u64>,
    /// The challenge everyone faces.
    pub challenge: MatchChallengeRef,
    /// Participants, by player.
    pub seats: Map<Seq<char>, SeatView>,
    /// Server time of the last operation on this room, for eviction.
    pub last_seen: u64,
}

/// The seats of a round, by value.
pub open spec fn seats_view(seats: Map<Seq<char>, Seat>) -> Map<Seq<char>, SeatView> {
    seats.map_values(|seat: Seat| seat@)
}

impl View for Room {
    type V = RoomView;

    closed spec fn view(&self) -> RoomView {
        RoomView {
            phase: self.phase,
            config: self.config,
            opens_at: self.opens_at,
            closes_at: self.closes_at,
            settled_at: self.settled_at,
            challenge: self.challenge,
            seats: seats_view(self.seats@),
            last_seen: self.last_seen,
        }
    }
}

/// Whether a listing shows every seat once, in the dictionary order of players.
pub open spec fn lists_seats(players: Seq<PlayerView>, seats: Map<Seq<char>, SeatView>) -> bool {
    &&& strictly_ascending(Seq::new(players.len(), |i: int| players[i].player_id))
    &&& forall|i: int|
        0 <= i < players.len() ==> seats.contains_key((#[trigger] players[i]).player_id) && players[i]
            == seats[players[i].player_id].listed(players[i].player_id)
    &&& forall|id: Seq<char>| #[trigger]
        seats.contains_key(id) ==> exists|i: int| 0 <= i < players.len() && #[trigger] players[i].player_id == id
}

impl RoomView {
    /// The round with the touch of a reader at `now`, moved on to its results
    /// once the deadline has passed.
    pub open spec fn settled(self, now: u64) -> RoomView {
        RoomView {
            last_seen: if self.last_seen < now {
                now
            } else {
                self.last_seen
            },
            phase: if self.phase == MatchPhase::Running && self.past_deadline(now) {
                MatchPhase::Results
            } else {
                self.phase
            },
            settled_at: if self.phase == MatchPhase::Running && self.past_deadline(now) {
                Some(now)
            } else {
                self.settled_at
            },
            ..self
        }
    }

    /// Whether the deadline, if there is one, has been reached.
    pub open spec fn past_deadline(self, now: u64) -> bool {
        self.closes_at is Some && now >= self.closes_at->0
    }

    /// Whether `state` is the public face of the round at `now`.
    pub open spec fn shows(self, state: MatchStateView, match_id: Seq<char>, now: u64) -> bool {
        &&& state.match_id == match_id
        &&& state.phase == self.phase
        &&& state.config == self.config
        &&& state.opens_at == self.opens_at
        &&& state.closes_at == self.closes_at
        &&& state.server_time == now
        &&& lists_seats(state.players, self.seats)
    }
}


impl RoomView {
    /// Why the round, settled at `now`, turns a submission away; nothing when
    /// it counts. Earlier reasons win over later ones, so a player who missed
    /// the deadline learns that rather than that the phase is wrong.
    pub open spec fn rejection(
        self,
        player: Seq<char>,
        result: SubmissionResult,
        now: u64,
    ) -> Option<MatchRejection> {
        if !self.seats.contains_key(player) {
            Some(MatchRejection::NotParticipant)
        } else if self.phase is Lobby || self.phase is Countdown || self.phase is Cancelled {
            Some(MatchRejection::WrongPhase)
        } else if self.past_deadline(now) {
            Some(MatchRejection::AfterDeadline)
        } else if !(self.phase is Running) {
            Some(MatchRejection::WrongPhase)
        } else if result.challenge_id@ != self.challenge.challenge_id@ || result.challenge_version
            != self.challenge.version {
            Some(MatchRejection::WrongChallenge)
        } else if result.programming_mode != self.config.programming_mode {
            Some(MatchRejection::WrongProgrammingMode)
        } else if self.too_soon(player, now) {
            Some(MatchRejection::RateLimited)
        } else {
            None
        }
    }

    /// Whether a player's last accepted submission is closer than the
    /// configured interval.
    pub open spec fn too_soon(self, player: Seq<char>, now: u64) -> bool {
        match self.seats[player].last_submit_at {
            Some(previous) => (if now >= previous {
                now - previous
            } else {
                0
            }) < self.config.min_submit_interval_ms,
            None => false,
        }
    }

    /// The round once a submission that counts has been entered: the player has
    /// submitted, and keeps the better of the attempt and their best so far.
    pub open spec fn entered(self, player: Seq<char>, result: SubmissionResult, now: u64) -> RoomView {
        let seat = self.seats[player];
        let attempt = Entry::of_result(result, now);
        RoomView {
            seats: self.seats.insert(
                player,
                SeatView {
                    submitted: true,
                    last_submit_at: Some(now),
                    best: match seat.best {
                        Some(best) if !attempt.outranks(best, self.config.rank_by) => Some(best),
                        _ => Some(attempt),
                    },
                    ..seat
                },
            ),
            ..self
        }
    }
}

/// Whether one player places before another: those who submitted first, among
/// them the one whose best attempt outranks the other's, and otherwise by
/// player.
pub open spec fn places_before(
    a_id: Seq<char>,
    a: SeatView,
    b_id: Seq<char>,
    b: SeatView,
    rank_by: RankBy,
) -> bool {
    match (a.best, b.best) {
        (Some(x), Some(y)) => x.outranks(y, rank_by) || (!y.outranks(x, rank_by) && text_less(a_id, b_id)),
        (Some(_), None) => true,
        (None, Some(_)) => false,
        (None, None) => text_less(a_id, b_id),
    }
}

/// Whether everything a seat is ranked by is a number.
pub open spec fn seat_comparable(seat: SeatView) -> bool {
    seat.best is Some ==> seat.best->0.comparable()
}

/// Whether every seat can be ranked.
pub open spec fn seats_comparable(seats: Map<Seq<char>, SeatView>) -> bool {
    forall|id: Seq<char>| #[trigger] seats.contains_key(id) ==> seat_comparable(seats[id])
}

/// Placing is a strict order on players whose attempts are comparable: of two
/// players exactly one places before the other, and placing is transitive.
pub proof fn law_placing_is_a_strict_total_order(
    a_id: Seq<char>,
    a: SeatView,
    b_id: Seq<char>,
    b: SeatView,
    c_id: Seq<char>,
    c: SeatView,
    rank_by: RankBy,
)
    requires
        seat_comparable(a),
        seat_comparable(b),
        seat_comparable(c),
    ensures
        !places_before(a_id, a, a_id, a, rank_by),
        a_id != b_id ==> (places_before(a_id, a, b_id, b, rank_by) <==> !places_before(
            b_id,
            b,
            a_id,
            a,
            rank_by,
        )),
        places_before(a_id, a, b_id, b, rank_by) && places_before(b_id, b, c_id, c, rank_by)
            ==> places_before(a_id, a, c_id, c, rank_by),
{
    lemma_text_less_irreflexive(a_id);
    lemma_text_less_total(a_id, b_id);
    if text_less(a_id, b_id) {
        lemma_text_less_asymmetric(a_id, b_id);
    }
    if text_less(b_id, a_id) {
        lemma_text_less_asymmetric(b_id, a_id);
    }
    if text_less(a_id, b_id) && text_less(b_id, c_id) {
        lemma_text_less_transitive(a_id, b_id, c_id);
    }
}

/// Whether a row reports a player's seat; one who never submitted is shown with
/// nothing scored.
pub open spec fn reports(row: MatchResultRow, seat: SeatView) -> bool {
    &&& row.display_name@ == seat.display_name
    &&& match seat.best {
        Some(best) => row.completion_score == best.completion_score && row.final_score
            == best.final_score && row.metrics == best.metrics && row.submission_id == Some(
            best.submission_id,
        ) && row.server_received_at == Some(best.server_received_at),
        None => row.completion_score == (Real { bits: 0 }) && row.final_score == (Real { bits: 0 })
            && row.metrics == ProgramMetrics::none() && row.submission_id is None
            && row.server_received_at is None,
    }
}

/// Whether rows are the standings of a round: every player once, ranks counted
/// from one, and each player before those they place before.
pub open spec fn are_standings(
    rows: Seq<MatchResultRow>,
    seats: Map<Seq<char>, SeatView>,
    rank_by: RankBy,
) -> bool {
    &&& rows.len() == seats.len()
    &&& forall|i: int|
        0 <= i < rows.len() ==> seats.contains_key((#[trigger] rows[i]).player_id@) && reports(
            rows[i],
            seats[rows[i].player_id@],
        ) && (i < u32::MAX ==> rows[i].rank == i + 1)
    &&& forall|i: int, j: int|
        0 <= i < j < rows.len() ==> (#[trigger] rows[i]).player_id@ != (#[trigger] rows[j]).player_id@
    &&& forall|id: Seq<char>| #[trigger]
        seats.contains_key(id) ==> exists|i: int| 0 <= i < rows.len() && (#[trigger] rows[i]).player_id@ == id
    &&& seats_comparable(seats) ==> forall|i: int, j: int|
        0 <= i < j < rows.len() ==> places_before(
            (#[trigger] rows[i]).player_id@,
            seats[rows[i].player_id@],
            (#[trigger] rows[j]).player_id@,
            seats[rows[j].player_id@],
            rank_by,
        )
}

impl Room {
    /// The public face of the round.
    fn public_state(&self, match_id: &str, now: u64) -> (state: MatchState)
        ensures
            self@.shows(state@, match_id@, now),
    {
        let mut players: Vec<MatchPlayer> = Vec::new();
        let count = self.seats.len();
        let ghost keys = self.seats.keys();
        for i in 0..count
            invariant
                count == keys.len(),
                keys == self.seats.keys(),
                players@.len() == i,
                forall|j: int| 0 <= j < keys.len() ==> self.seats@.contains_key(#[trigger] keys[j]),
                forall|j: int|
                    0 <= j < i ==> (#[trigger] players@[j])@ == self.seats@[keys[j]]@.listed(keys[j]),
        {
            let seat = self.seats.value_at(i);
            players.push(
                MatchPlayer {
                    player_id: self.seats.key_at(i).clone(),
                    display_name: seat.display_name.clone(),
                    connected: seat.connected,
                    submitted: seat.submitted,
                },
            );
        }
        proof {
            let shown = players_view(players@);
            assert(Seq::new(shown.len(), |i: int| shown[i].player_id) =~= keys);
            assert forall|id: Seq<char>| #[trigger] self@.seats.contains_key(id) implies exists|i: int|
                0 <= i < shown.len() && #[trigger] shown[i].player_id == id by {
                assert(keys.to_set().contains(id));
                let i = choose|i: int| 0 <= i < keys.len() && keys[i] == id;
                assert(shown[i].player_id == id);
            }
        }
        MatchState {
            match_id: match_id.to_owned(),
            phase: self.phase,
            config: self.config.clone(),
            opens_at: self.opens_at,
            closes_at: self.closes_at,
            server_time: now,
            players,
        }
    }

    /// Advance out of the running phase once the deadline has passed, and record
    /// the touch used by eviction.
    fn settle(&mut self, now: u64)
        ensures
            final(self)@ == old(self)@.settled(now),
    {
        if self.last_seen < now {
            self.last_seen = now;
        }
        if self.phase == MatchPhase::Running {
            match self.closes_at {
                Some(closes) => {
                    if now >= closes {
                        self.phase = MatchPhase::Results;
                        self.settled_at = Some(now);
                    }
                },
                None => {},
            }
        }
    }

    /// Why the round turns a submission away.
    fn refusal(&self, player_id: &str, result: &SubmissionResult, now: u64) -> (r: Option<MatchRejection>)
        ensures
            r == self@.rejection(player_id@, *result, now),
    {
        let seat = match self.seats.get(player_id) {
            Some(seat) => seat,
            None => {
                return Some(MatchRejection::NotParticipant);
            },
        };
        if matches!(self.phase, MatchPhase::Lobby | MatchPhase::Countdown | MatchPhase::Cancelled) {
            return Some(MatchRejection::WrongPhase);
        }
        match self.closes_at {
            Some(closes) => {
                if now >= closes {
                    return Some(MatchRejection::AfterDeadline);
                }
            },
            None => {},
        }
        if self.phase != MatchPhase::Running {
            return Some(MatchRejection::WrongPhase);
        }
        if !same(result.challenge_id.as_str(), self.challenge.challenge_id.as_str())
            || result.challenge_version != self.challenge.version {
            return Some(MatchRejection::WrongChallenge);
        }
        if result.programming_mode != self.config.programming_mode {
            return Some(MatchRejection::WrongProgrammingMode);
        }
        match seat.last_submit_at {
            Some(previous) => {
                let gap: u64 = if now >= previous { now - previous } else { 0 };
                if gap < self.config.min_submit_interval_ms {
                    return Some(MatchRejection::RateLimited);
                }
            },
            None => {},
        }
        None
    }

    /// Enter a submission that counts.
    fn enter(&mut self, player_id: &str, result: &SubmissionResult, now: u64)
        requires
            old(self)@.seats.contains_key(player_id@),
        ensures
            final(self)@ == old(self)@.entered(player_id@, *result, now),
    {
        let attempt = Entry {
            submission_id: result.submission_id.clone(),
            completion_score: result.score.completion_score,
            final_score: result.score.final_score,
            efficiency_score: result.score.efficiency_score,
            metrics: result.metrics,
            server_received_at: now,
        };
        let ghost before = self.seats@;
        match self.seats.remove(player_id) {
            Some(seat) => {
                let best = match seat.best {
                    Some(best) => if attempt.beats(&best, self.config.rank_by) {
                        attempt
                    } else {
                        best
                    },
                    None => attempt,
                };
                let updated = Seat {
                    display_name: seat.display_name,
                    connected: seat.connected,
                    submitted: true,
                    best: Some(best),
                    last_submit_at: Some(now),
                };
                self.seats.insert(player_id.to_owned(), updated);
                assert(seats_view(self.seats@) =~= seats_view(before).insert(player_id@, updated@));
            },
            None => {},
        }
    }

    /// Whether the player at one position of the walk places before another.
    fn before(&self, a: usize, b: usize) -> (r: bool)
        requires
            a < self.seats.keys().len(),
            b < self.seats.keys().len(),
        ensures
            r == places_before(
                self.seats.keys()[a as int],
                self.seats@[self.seats.keys()[a as int]]@,
                self.seats.keys()[b as int],
                self.seats@[self.seats.keys()[b as int]]@,
                self.config.rank_by,
            ),
    {
        let x = self.seats.value_at(a);
        let y = self.seats.value_at(b);
        let first = less(self.seats.key_at(a).as_str(), self.seats.key_at(b).as_str());
        match (&x.best, &y.best) {
            (Some(left), Some(right)) => left.beats(right, self.config.rank_by) || (!right.beats(
                left,
                self.config.rank_by,
            ) && first),
            (Some(_), None) => true,
            (None, Some(_)) => false,
            (None, None) => first,
        }
    }
}


/// Whether a position occurs in a list of positions.
spec fn occurs(order: Seq<usize>, position: int) -> bool {
    exists|i: int| 0 <= i < order.len() && #[trigger] order[i] == position
}

impl Room {
    /// Whether the player at one position of the walk places before another.
    spec fn ahead(self, a: int, b: int) -> bool {
        places_before(
            self.seats.keys()[a],
            self.seats@[self.seats.keys()[a]]@,
            self.seats.keys()[b],
            self.seats@[self.seats.keys()[b]]@,
            self.config.rank_by,
        )
    }

    /// Whether the seats can be ranked, and how the walk meets them.
    spec fn walkable(self) -> bool {
        &&& self.seats.keys().no_duplicates()
        &&& forall|i: int|
            0 <= i < self.seats.keys().len() ==> self.seats@.contains_key(#[trigger] self.seats.keys()[i])
    }

    proof fn lemma_ahead(self, a: int, b: int, c: int)
        requires
            self.walkable(),
            seats_comparable(self@.seats),
            0 <= a < self.seats.keys().len(),
            0 <= b < self.seats.keys().len(),
            0 <= c < self.seats.keys().len(),
        ensures
            a != b ==> self.ahead(a, b) || self.ahead(b, a),
            self.ahead(a, b) && self.ahead(b, c) ==> self.ahead(a, c),
    {
        let keys = self.seats.keys();
        assert(self@.seats.contains_key(keys[a]));
        assert(self@.seats.contains_key(keys[b]));
        assert(self@.seats.contains_key(keys[c]));
        law_placing_is_a_strict_total_order(
            keys[a],
            self.seats@[keys[a]]@,
            keys[b],
            self.seats@[keys[b]]@,
            keys[c],
            self.seats@[keys[c]]@,
            self.config.rank_by,
        );
    }

    /// Positions of the walk in the order they place.
    fn placing(&self) -> (order: Vec<usize>)
        ensures
            order@.len() == self.seats.keys().len(),
            forall|i: int| 0 <= i < order@.len() ==> (#[trigger] order@[i]) < order@.len(),
            forall|i: int, j: int| 0 <= i < j < order@.len() ==> #[trigger] order@[i] != #[trigger] order@[j],
            forall|p: int| 0 <= p < order@.len() ==> #[trigger] occurs(order@, p),
            seats_comparable(self@.seats) ==> forall|i: int, j: int|
                0 <= i < j < order@.len() ==> self.ahead(#[trigger] order@[i] as int, #[trigger] order@[j] as int),
    {
        let count = self.seats.len();
        let mut order: Vec<usize> = Vec::new();
        let mut next: usize = 0;
        while next < count
            invariant
                count == self.seats.keys().len(),
                self.walkable(),
                next <= count,
                order@.len() == next,
                forall|i: int| 0 <= i < next ==> (#[trigger] order@[i]) < next,
                forall|i: int, j: int| 0 <= i < j < next ==> #[trigger] order@[i] != #[trigger] order@[j],
                forall|p: int| 0 <= p < next ==> #[trigger] occurs(order@, p),
                seats_comparable(self@.seats) ==> forall|i: int, j: int|
                    0 <= i < j < next ==> self.ahead(#[trigger] order@[i] as int, #[trigger] order@[j] as int),
            decreases count - next,
        {
            let mut slot: usize = 0;
            while slot < order.len() && !self.before(next, order[slot])
                invariant
                    count == self.seats.keys().len(),
                    next < count,
                    order@.len() == next,
                    slot <= next,
                    forall|i: int| 0 <= i < next ==> (#[trigger] order@[i]) < next,
                    forall|i: int| 0 <= i < slot ==> !self.ahead(next as int, #[trigger] order@[i] as int),
                decreases order.len() - slot,
            {
                slot += 1;
            }
            let ghost placed = order@;
            order.insert(slot, next);
            proof {
                assert(order@ == placed.insert(slot as int, next));
                assert forall|p: int| 0 <= p < next + 1 implies #[trigger] occurs(order@, p) by {
                    if p == next {
                        assert(order@[slot as int] == p);
                    } else {
                        assert(occurs(placed, p));
                        let i = choose|i: int| 0 <= i < next && #[trigger] placed[i] == p;
                        if i < slot {
                            assert(order@[i] == p);
                        } else {
                            assert(order@[i + 1] == p);
                        }
                    }
                }
                if seats_comparable(self@.seats) {
                    assert forall|i: int, j: int| 0 <= i < j < next + 1 implies self.ahead(
                        #[trigger] order@[i] as int,
                        #[trigger] order@[j] as int,
                    ) by {
                        let was_i = if i < slot { i } else { i - 1 };
                        let was_j = if j < slot { j } else { j - 1 };
                        if i == slot {
                            assert(order@[j] == placed[was_j]);
                            assert(self.ahead(next as int, placed[slot as int] as int));
                            if was_j > slot {
                                assert(self.ahead(placed[slot as int] as int, placed[was_j] as int));
                                self.lemma_ahead(
                                    next as int,
                                    placed[slot as int] as int,
                                    placed[was_j] as int,
                                );
                            }
                        } else if j == slot {
                            assert(order@[i] == placed[was_i]);
                            assert(!self.ahead(next as int, placed[was_i] as int));
                            self.lemma_ahead(next as int, placed[was_i] as int, next as int);
                        } else {
                            assert(order@[i] == placed[was_i]);
                            assert(order@[j] == placed[was_j]);
                            assert(self.ahead(placed[was_i] as int, placed[was_j] as int));
                        }
                    }
                }
            }
            next += 1;
        }
        order
    }

    /// The row of the player at a position of the walk.
    fn row(&self, position: usize, rank: u32) -> (row: MatchResultRow)
        requires
            position < self.seats.keys().len(),
        ensures
            row.player_id@ == self.seats.keys()[position as int],
            row.rank == rank,
            reports(row, self.seats@[self.seats.keys()[position as int]]@),
    {
        let player_id = self.seats.key_at(position).clone();
        let seat = self.seats.value_at(position);
        match &seat.best {
            Some(best) => MatchResultRow {
                rank,
                player_id,
                display_name: seat.display_name.clone(),
                completion_score: best.completion_score,
                final_score: best.final_score,
                metrics: best.metrics,
                submission_id: Some(best.submission_id.clone()),
                server_received_at: Some(best.server_received_at),
            },
            None => MatchResultRow {
                rank,
                player_id,
                display_name: seat.display_name.clone(),
                completion_score: Real::zero(),
                final_score: Real::zero(),
                metrics: ProgramMetrics::default(),
                submission_id: None,
                server_received_at: None,
            },
        }
    }

    /// The standings.
    fn standings(&self) -> (rows: Vec<MatchResultRow>)
        ensures
            are_standings(rows@, self@.seats, self@.config.rank_by),
    {
        let count = self.seats.len();
        let order = self.placing();
        let ghost keys = self.seats.keys();
        let mut rows: Vec<MatchResultRow> = Vec::new();
        let mut rank: u32 = 0;
        for i in 0..count
            invariant
                count == keys.len(),
                keys == self.seats.keys(),
                order@.len() == count,
                forall|j: int| 0 <= j < count ==> (#[trigger] order@[j]) < count,
                rows@.len() == i,
                i <= u32::MAX ==> rank == i,
                forall|j: int|
                    0 <= j < i ==> (#[trigger] rows@[j]).player_id@ == keys[order@[j] as int] && reports(
                        rows@[j],
                        self.seats@[keys[order@[j] as int]]@,
                    ) && (j < u32::MAX ==> rows@[j].rank == j + 1),
        {
            rank = rank.wrapping_add(1);
            assert(order@[i as int] < count);
            rows.push(self.row(order[i], rank));
        }
        proof {
            let seats = self@.seats;
            assert(seats.dom() =~= self.seats@.dom());
            assert forall|id: Seq<char>| #[trigger] seats.contains_key(id) implies exists|i: int|
                0 <= i < rows.len() && (#[trigger] rows@[i]).player_id@ == id by {
                assert(keys.to_set().contains(id));
                let p = choose|p: int| 0 <= p < keys.len() && keys[p] == id;
                assert(occurs(order@, p));
                let i = choose|i: int| 0 <= i < order@.len() && #[trigger] order@[i] == p;
                assert(rows@[i].player_id@ == id);
            }
            assert forall|i: int| 0 <= i < rows.len() implies seats.contains_key(
                (#[trigger] rows@[i]).player_id@,
            ) && reports(rows@[i], seats[rows@[i].player_id@]) by {
                assert(order@[i] < count);
                assert(self.seats@.contains_key(keys[order@[i] as int]));
            }
            assert forall|i: int, j: int| 0 <= i < j < rows.len() implies (#[trigger] rows@[i]).player_id@
                != (#[trigger] rows@[j]).player_id@ by {
                assert(order@[i] != order@[j]);
                assert(order@[i] < count && order@[j] < count);
            }
            if seats_comparable(seats) {
                assert forall|i: int, j: int| 0 <= i < j < rows.len() implies places_before(
                    (#[trigger] rows@[i]).player_id@,
                    seats[rows@[i].player_id@],
                    (#[trigger] rows@[j]).player_id@,
                    seats[rows@[j].player_id@],
                    self.config.rank_by,
                ) by {
                    assert(order@[i] < count && order@[j] < count);
                    assert(self.seats@.contains_key(keys[order@[i] as int]));
                    assert(self.seats@.contains_key(keys[order@[j] as int]));
                    assert(self.ahead(order@[i] as int, order@[j] as int));
                }
            }
        }
        rows
    }
}


// ---------------------------------------------------------------------------
// Room codes
// ---------------------------------------------------------------------------

/// Length of a room code.
pub const CODE_LEN: usize = 6;

/// The characters of room codes: capital letters and digits without `I`, `O`,
/// `0` and `1`, because a code's job is to survive being read out loud and
/// typed back in.
pub open spec fn code_char(d: int) -> char {
    if d < 8 {
        ('A' as int + d) as char
    } else if d < 13 {
        ('J' as int + (d - 8)) as char
    } else if d < 24 {
        ('P' as int + (d - 13)) as char
    } else {
        ('2' as int + (d - 24)) as char
    }
}

/// The bytes of a number, most significant first.
pub open spec fn big_endian(n: u64) -> Seq<u8> {
    seq![
        (n as int / 0x100_0000_0000_0000 % 256) as u8,
        (n as int / 0x1_0000_0000_0000 % 256) as u8,
        (n as int / 0x100_0000_0000 % 256) as u8,
        (n as int / 0x1_0000_0000 % 256) as u8,
        (n as int / 0x100_0000 % 256) as u8,
        (n as int / 0x1_0000 % 256) as u8,
        (n as int / 0x100 % 256) as u8,
        (n as int % 256) as u8,
    ]
}

/// The room code a counter value stands for under a key.
pub open spec fn room_code(key: Seq<u8>, counter: u64) -> Seq<char> {
    Seq::new(
        CODE_LEN as nat,
        |i: int| code_char(hmac_sha256_of(key, big_endian(counter))[i] as int % 32),
    )
}

/// A room code is six characters, none of which can be mistaken for another.
pub proof fn law_room_codes_are_short_and_unambiguous(key: Seq<u8>, counter: u64, i: int)
    requires
        0 <= i < CODE_LEN,
    ensures
        room_code(key, counter).len() == CODE_LEN,
        room_code(key, counter)[i] != 'I',
        room_code(key, counter)[i] != 'O',
        room_code(key, counter)[i] != '0',
        room_code(key, counter)[i] != '1',
        'A' as int <= room_code(key, counter)[i] as int <= 'Z' as int || '2' as int <= room_code(
            key,
            counter,
        )[i] as int <= '9' as int,
{
}

fn big_endian_bytes(n: u64) -> (bytes: Vec<u8>)
    ensures
        bytes@ == big_endian(n),
{
    let mut bytes: Vec<u8> = Vec::new();
    bytes.push((n / 0x100_0000_0000_0000 % 256) as u8);
    bytes.push((n / 0x1_0000_0000_0000 % 256) as u8);
    bytes.push((n / 0x100_0000_0000 % 256) as u8);
    bytes.push((n / 0x1_0000_0000 % 256) as u8);
    bytes.push((n / 0x100_0000 % 256) as u8);
    bytes.push((n / 0x1_0000 % 256) as u8);
    bytes.push((n / 0x100 % 256) as u8);
    bytes.push((n % 256) as u8);
    assert(bytes@ =~= big_endian(n));
    bytes
}

fn code_digit(d: u8) -> (c: char)
    requires
        d < 32,
    ensures
        c == code_char(d as int),
{
    if d < 8 {
        (65 + d) as char
    } else if d < 13 {
        (74 + (d - 8)) as char
    } else if d < 24 {
        (80 + (d - 13)) as char
    } else {
        (50 + (d - 24)) as char
    }
}

/// Turn a counter value into a room code.
///
/// A room's code is the capability to join it, so the counter passes through an
/// authentication code under a per-process key: codes cannot be counted, and
/// the counter still guarantees that inputs never repeat.
pub fn derive_code(key: &[u8], counter: u64) -> (code: String)
    ensures
        code@ == room_code(key@, counter),
{
    let message = big_endian_bytes(counter);
    let digest = hmac_sha256(key, message.as_slice());
    let mut code: String = String::new();
    for i in 0..CODE_LEN
        invariant
            digest@ == hmac_sha256_of(key@, big_endian(counter)),
            digest@.len() == 32,
            code@ == room_code(key@, counter).take(i as int),
    {
        code.push(code_digit(digest[i] % 32));
        assert(code@ =~= room_code(key@, counter).take(i + 1));
    }
    code
}

/// Calls `std::hash::BuildHasher::build_hasher` on a fresh
/// `std::collections::hash_map::RandomState`, which is seeded from the
/// platform's random source. Nothing is known of the word it hashes to.
#[verifier::external_body]
fn random_word() -> (word: u64)
{
    std::collections::hash_map::RandomState::new().build_hasher().finish()
}

/// The bytes of four words, the highest of each first.
pub open spec fn key_bytes(words: Seq<u64>) -> Seq<u8> {
    big_endian(words[0]) + big_endian(words[1]) + big_endian(words[2]) + big_endian(words[3])
}

/// The key that four words make.
pub fn key_of(words: [u64; 4]) -> (key: Vec<u8>)
    ensures
        key@ == key_bytes(words@),
        key@.len() == 32,
{
    let mut key = big_endian_bytes(words[0]);
    let mut second = big_endian_bytes(words[1]);
    let mut third = big_endian_bytes(words[2]);
    let mut fourth = big_endian_bytes(words[3]);
    key.append(&mut second);
    key.append(&mut third);
    key.append(&mut fourth);
    key
}

/// A 32-byte key from the platform's random source, for identifiers that only
/// have to be unguessable within a process lifetime. Which words make it is left open:
/// they are drawn afresh.
pub fn random_key() -> (key: Vec<u8>)
    ensures
        exists|words: [u64; 4]| key@ == #[trigger] key_bytes(words@),
        key@.len() == 32,
{
    let words = [random_word(), random_word(), random_word(), random_word()];
    key_of(words)
}

// ---------------------------------------------------------------------------
// The registry
// ---------------------------------------------------------------------------

/// Tracks live rounds.
#[derive(Debug)]
pub struct MatchRegistry {
    rooms: TextMap<Room>,
    counter: u64,
    code_key: Vec<u8>,
}

/// Live rounds, by value.
pub struct RegistryView {
    /// Rounds, by room code.
    pub rooms: Map<Seq<char>, RoomView>,
    /// How many counter values have been tried for room codes.
    pub counter: u64,
    /// Keys the room-code derivation.
    pub code_key: Seq<u8>,
}

/// Rounds, by value.
pub open spec fn rooms_view(rooms: Map<Seq<char>, Room>) -> Map<Seq<char>, RoomView> {
    rooms.map_values(|room: Room| room@)
}

impl View for MatchRegistry {
    type V = RegistryView;

    closed spec fn view(&self) -> RegistryView {
        RegistryView {
            rooms: rooms_view(self.rooms@),
            counter: self.counter,
            code_key: self.code_key@,
        }
    }
}

impl RoomView {
    /// Whether the times of the round agree with its phase. A lobby has no deadline
    /// yet. A round that runs closes its duration after it opened, and so did one
    /// that shows its results: those came no earlier than that.
    pub open spec fn timed(self) -> bool {
        &&& self.phase is Lobby ==> self.opens_at is None && self.closes_at is None
        &&& self.phase is Running || self.phase is Results ==> self.opens_at is Some
            && self.closes_at is Some && self.closes_at->0 == self.opens_at->0
            + self.config.duration_ms
        &&& self.phase is Results ==> self.settled_at is Some && self.closes_at->0
            <= self.settled_at->0
        &&& !(self.phase is Countdown) && !(self.phase is Grading)
    }
}

impl RegistryView {
    /// Whether the times of every round agree with its phase.
    pub open spec fn timed(self) -> bool {
        forall|id: Seq<char>| #[trigger] self.rooms.contains_key(id) ==> self.rooms[id].timed()
    }

    /// The registry with one round replaced.
    pub open spec fn with_room(self, match_id: Seq<char>, room: RoomView) -> RegistryView {
        RegistryView { rooms: self.rooms.insert(match_id, room), ..self }
    }

    /// Whether a counter value stands for the code of a live round.
    pub open spec fn occupied(self, counter: u64) -> bool {
        self.rooms.contains_key(room_code(self.code_key, counter))
    }
}

impl RoomView {
    /// A lobby nobody has joined yet.
    pub open spec fn opened(config: MatchConfig, challenge: MatchChallengeRef, now: u64) -> RoomView {
        RoomView {
            phase: MatchPhase::Lobby,
            config,
            opens_at: None,
            closes_at: None,
            settled_at: None,
            challenge,
            seats: Map::empty(),
            last_seen: now,
        }
    }

    /// The round with the touch of a writer at `now`.
    pub open spec fn touched(self, now: u64) -> RoomView {
        RoomView { last_seen: now, ..self }
    }

    /// The lobby with a player in it. One who joins again is seated afresh.
    pub open spec fn joined(
        self,
        player: Seq<char>,
        display_name: Seq<char>,
        now: u64,
    ) -> RoomView {
        RoomView {
            seats: self.seats.insert(
                player,
                SeatView {
                    display_name,
                    connected: true,
                    submitted: false,
                    best: if self.seats.contains_key(player) {
                        self.seats[player].best
                    } else {
                        None
                    },
                    last_submit_at: if self.seats.contains_key(player) {
                        self.seats[player].last_submit_at
                    } else {
                        None
                    },
                },
            ),
            ..self.touched(now)
        }
    }

    /// The round once started: running until its duration has passed.
    pub open spec fn started(self, now: u64) -> RoomView {
        RoomView {
            phase: MatchPhase::Running,
            opens_at: Some(now),
            closes_at: Some((now + self.config.duration_ms) as u64),
            ..self.touched(now)
        }
    }

    /// The round once abandoned.
    pub open spec fn cancelled(self, now: u64) -> RoomView {
        RoomView { phase: MatchPhase::Cancelled, ..self.touched(now) }
    }

    /// Whether nobody is using the round any more. A running round always is in
    /// use.
    pub open spec fn expired(self, now: u64, results_retention_ms: u64, lobby_idle_timeout_ms: u64) -> bool {
        let idle = if now >= self.last_seen {
            now - self.last_seen
        } else {
            0
        };
        match self.phase {
            MatchPhase::Results | MatchPhase::Cancelled => idle > results_retention_ms,
            MatchPhase::Lobby | MatchPhase::Countdown => idle > lobby_idle_timeout_ms,
            MatchPhase::Running | MatchPhase::Grading => false,
        }
    }
}

/// What dropping rounds nobody uses any more does: each expired one is gone and
/// named once, and the others are as they were.
pub open spec fn evicts(
    before: RegistryView,
    after: RegistryView,
    now: u64,
    results_retention_ms: u64,
    lobby_idle_timeout_ms: u64,
    removed: Seq<String>,
) -> bool {
    &&& after.counter == before.counter
    &&& after.code_key == before.code_key
    &&& forall|id: Seq<char>| #[trigger]
        after.rooms.contains_key(id) <==> before.rooms.contains_key(id)
            && !before.rooms[id].expired(now, results_retention_ms, lobby_idle_timeout_ms)
    &&& forall|id: Seq<char>| #[trigger]
        after.rooms.contains_key(id) ==> after.rooms[id] == before.rooms[id]
    &&& forall|i: int|
        0 <= i < removed.len() ==> before.rooms.contains_key((#[trigger] removed[i])@)
            && !after.rooms.contains_key(removed[i]@)
    &&& forall|i: int, j: int|
        0 <= i < j < removed.len() ==> (#[trigger] removed[i])@ != (#[trigger] removed[j])@
    &&& forall|id: Seq<char>|
        before.rooms.contains_key(id) && !(#[trigger] after.rooms.contains_key(id))
            ==> names(removed, id)
}

/// What opening a round does: the next free code is taken, and the lobby is
/// shown.
pub open spec fn creates(
    before: RegistryView,
    after: RegistryView,
    config: MatchConfig,
    challenge: MatchChallengeRef,
    now: u64,
    r: ServiceResult<MatchState>,
) -> bool {
    &&& match r {
        Ok(state) => {
            let counter = after.counter;
            let match_id = room_code(before.code_key, counter);
            let room = RoomView::opened(config, challenge, now);
            &&& before.counter < counter
            &&& !before.occupied(counter)
            &&& forall|c: u64|
                before.counter < c < counter ==> #[trigger] before.occupied(c)
            &&& after == (RegistryView { counter, ..before.with_room(match_id, room) })
            &&& room.shows(state@, match_id, now)
        },
        Err(error) => {
            &&& error.is_internal("room codes are exhausted"@)
            &&& forall|c: u64| before.counter < c ==> #[trigger] before.occupied(c)
            &&& after == before
        },
    }
}

/// What joining a round does.
pub open spec fn joins(
    before: RegistryView,
    after: RegistryView,
    match_id: Seq<char>,
    player_id: Seq<char>,
    display_name: Seq<char>,
    now: u64,
    r: ServiceResult<MatchState>,
) -> bool {
    &&& !before.rooms.contains_key(match_id) ==> after == before && r is Err
        && r->Err_0.is_session_not_found(match_id)
    &&& before.rooms.contains_key(match_id) ==> {
        let room = before.rooms[match_id];
        if !(room.phase is Lobby) {
            &&& r == Err::<MatchState, ServiceError>(ServiceError::SessionTerminated)
            &&& after == before.with_room(match_id, room.touched(now))
        } else if !room.seats.contains_key(player_id) && room.seats.len()
            >= room.config.max_players {
            &&& r == Err::<MatchState, ServiceError>(ServiceError::RateLimited)
            &&& after == before.with_room(match_id, room.touched(now))
        } else {
            let seated = room.joined(player_id, display_name, now);
            &&& r is Ok
            &&& seated.shows((r->Ok_0)@, match_id, now)
            &&& after == before.with_room(match_id, seated)
        }
    }
}

/// What starting a round does.
pub open spec fn starts(
    before: RegistryView,
    after: RegistryView,
    match_id: Seq<char>,
    now: u64,
    r: ServiceResult<MatchState>,
) -> bool {
    &&& !before.rooms.contains_key(match_id) ==> after == before && r is Err
        && r->Err_0.is_session_not_found(match_id)
    &&& before.rooms.contains_key(match_id) ==> {
        let room = before.rooms[match_id];
        if !(room.phase is Lobby) {
            &&& r == Err::<MatchState, ServiceError>(ServiceError::SessionTerminated)
            &&& after == before.with_room(match_id, room.touched(now))
        } else {
            &&& r is Ok
            &&& room.started(now).shows((r->Ok_0)@, match_id, now)
            &&& after == before.with_room(match_id, room.started(now))
        }
    }
}

/// What asking for a round's state does.
pub open spec fn shows_state(
    before: RegistryView,
    after: RegistryView,
    match_id: Seq<char>,
    now: u64,
    r: ServiceResult<MatchState>,
) -> bool {
    &&& !before.rooms.contains_key(match_id) ==> after == before && r is Err
        && r->Err_0.is_session_not_found(match_id)
    &&& before.rooms.contains_key(match_id) ==> {
        let room = before.rooms[match_id].settled(now);
        &&& r is Ok
        &&& room.shows((r->Ok_0)@, match_id, now)
        &&& after == before.with_room(match_id, room)
    }
}

/// What asking for a round's challenge does.
pub open spec fn reveals(
    before: RegistryView,
    after: RegistryView,
    match_id: Seq<char>,
    now: u64,
    r: ServiceResult<MatchChallengeRef>,
) -> bool {
    &&& !before.rooms.contains_key(match_id) ==> after == before && r is Err
        && r->Err_0.is_session_not_found(match_id)
    &&& before.rooms.contains_key(match_id) ==> {
        let room = before.rooms[match_id].settled(now);
        &&& after == before.with_room(match_id, room)
        &&& room.phase is Lobby ==> r is Err && r->Err_0.is_match_not_ready(
            "The challenge is revealed when the round starts."@,
        )
        &&& !(room.phase is Lobby) ==> r == Ok::<MatchChallengeRef, ServiceError>(
            room.challenge,
        )
    }
}

/// What entering a result into a round does.
pub open spec fn submits(
    before: RegistryView,
    after: RegistryView,
    match_id: Seq<char>,
    player_id: Seq<char>,
    result: SubmissionResult,
    now: u64,
    r: ServiceResult<MatchSubmissionAck>,
) -> bool {
    &&& !before.rooms.contains_key(match_id) ==> after == before && r is Err
        && r->Err_0.is_session_not_found(match_id)
    &&& before.rooms.contains_key(match_id) ==> {
        let room = before.rooms[match_id].settled(now);
        let refused = room.rejection(player_id, result, now);
        &&& r == Ok::<MatchSubmissionAck, ServiceError>(
            MatchSubmissionAck {
                submission_id: result.submission_id,
                accepted: refused is None,
                server_received_at: now,
                rejected_reason: refused,
            },
        )
        &&& after == before.with_room(
            match_id,
            if refused is None {
                room.entered(player_id, result, now)
            } else {
                room
            },
        )
    }
}

/// What asking for a round's standings does.
pub open spec fn publishes(
    before: RegistryView,
    after: RegistryView,
    match_id: Seq<char>,
    now: u64,
    r: ServiceResult<MatchResults>,
) -> bool {
    &&& !before.rooms.contains_key(match_id) ==> after == before && r is Err
        && r->Err_0.is_session_not_found(match_id)
    &&& before.rooms.contains_key(match_id) ==> {
        let room = before.rooms[match_id].settled(now);
        &&& after == before.with_room(match_id, room)
        &&& !(room.phase is Results) ==> r is Err && r->Err_0.is_match_not_ready(
            "Results are published when the round closes."@,
        )
        &&& room.phase is Results ==> r is Ok && published(r->Ok_0, match_id, room)
    }
}

/// What abandoning a round does.
pub open spec fn cancels(
    before: RegistryView,
    after: RegistryView,
    match_id: Seq<char>,
    now: u64,
    r: ServiceResult<MatchState>,
) -> bool {
    &&& !before.rooms.contains_key(match_id) ==> after == before && r is Err
        && r->Err_0.is_session_not_found(match_id)
    &&& before.rooms.contains_key(match_id) ==> {
        let room = before.rooms[match_id].cancelled(now);
        &&& r is Ok
        &&& room.shows((r->Ok_0)@, match_id, now)
        &&& after == before.with_room(match_id, room)
    }
}

proof fn lemma_rooms_stay_timed(
    before: Map<Seq<char>, RoomView>,
    after: Map<Seq<char>, RoomView>,
    match_id: Seq<char>,
)
    requires
        forall|id: Seq<char>| #[trigger] before.contains_key(id) ==> before[id].timed(),
        forall|id: Seq<char>| #[trigger]
            after.contains_key(id) && id != match_id ==> before.contains_key(id) && after[id] == before[id],
        after.contains_key(match_id) ==> after[match_id].timed(),
    ensures
        forall|id: Seq<char>| #[trigger] after.contains_key(id) ==> after[id].timed(),
{
}

impl MatchRegistry {
    #[verifier::type_invariant]
    spec fn wf(self) -> bool {
        self@.timed()
    }

    /// A registry with no rounds, under a fresh key.
    pub fn new() -> (r: MatchRegistry)
        ensures
            r@.rooms == Map::<Seq<char>, RoomView>::empty(),
            r@.counter == 0,
            r@.code_key.len() == 32,
    {
        let r = MatchRegistry { rooms: TextMap::new(), counter: 0, code_key: random_key() };
        assert(r@.rooms =~= Map::<Seq<char>, RoomView>::empty());
        r
    }

    /// Put a round back under its code.
    fn put(&mut self, match_id: &str, room: Room)
        requires
            room@.timed(),
        ensures
            final(self)@ == old(self)@.with_room(match_id@, room@),
            final(self)@.timed(),
    {
        proof {
            use_type_invariant(&*self);
        }
        let ghost start = self@;
        let ghost before = self.rooms@;
        let mut rooms = TextMap::new();
        std::mem::swap(&mut rooms, &mut self.rooms);
        rooms.insert(match_id.to_owned(), room);
        proof {
            assert(rooms_view(rooms@) =~= rooms_view(before).insert(match_id@, room@));
            lemma_rooms_stay_timed(start.rooms, rooms_view(rooms@), match_id@);
        }
        self.rooms = rooms;
    }

    /// Take a round out, to work on it.
    fn take(&mut self, match_id: &str) -> (room: ServiceResult<Room>)
        ensures
            match room {
                Ok(room) => old(self)@.rooms.contains_key(match_id@) && room@
                    == old(self)@.rooms[match_id@] && room@.timed() && final(self)@ == (RegistryView {
                    rooms: old(self)@.rooms.remove(match_id@),
                    ..old(self)@
                }),
                Err(error) => !old(self)@.rooms.contains_key(match_id@) && final(self)@ == old(self)@
                    && error.is_session_not_found(match_id@),
            },
            old(self)@.timed(),
            final(self)@.timed(),
    {
        proof {
            use_type_invariant(&*self);
        }
        let ghost start = self@;
        let ghost before = self.rooms@;
        let mut rooms = TextMap::new();
        std::mem::swap(&mut rooms, &mut self.rooms);
        let taken = rooms.remove(match_id);
        proof {
            assert(rooms_view(rooms@) =~= rooms_view(before).remove(match_id@));
            lemma_rooms_stay_timed(start.rooms, rooms_view(rooms@), match_id@);
        }
        self.rooms = rooms;
        match taken {
            Some(room) => {
                assert(old(self)@.rooms.contains_key(match_id@));
                Ok(room)
            },
            None => {
                assert(self.rooms@ =~= before);
                Err(ServiceError::SessionNotFound(match_id.to_owned()))
            },
        }
    }

    /// The next counter value whose code is free, with that code.
    fn next_free(&self) -> (r: Option<(u64, String)>)
        ensures
            match r {
                Some((counter, code)) => {
                    &&& self@.counter < counter
                    &&& !self@.occupied(counter)
                    &&& forall|c: u64| self@.counter < c < counter ==> #[trigger] self@.occupied(c)
                    &&& code@ == room_code(self@.code_key, counter)
                },
                None => forall|c: u64| self@.counter < c ==> #[trigger] self@.occupied(c),
            },
    {
        let mut counter: u64 = self.counter;
        while counter < u64::MAX
            invariant
                self.counter <= counter,
                forall|c: u64| self.counter < c <= counter ==> #[trigger] self@.occupied(c),
            decreases u64::MAX - counter,
        {
            counter += 1;
            let code = derive_code(self.code_key.as_slice(), counter);
            let taken = self.rooms.contains_key(code.as_str());
            assert(taken == self@.occupied(counter));
            if !taken {
                return Some((counter, code));
            }
        }
        None
    }

    /// Open a lobby.
    ///
    /// Distinct counter values can still fall on the same six characters, so
    /// occupied codes are passed over. Fails only when no counter value is left
    /// whose code is free.
    pub fn create(
        &mut self,
        config: MatchConfig,
        challenge: MatchChallengeRef,
        now: u64,
    ) -> (r: ServiceResult<MatchState>)
        ensures
            creates(old(self)@, final(self)@, config, challenge, now, r),
            old(self)@.timed(),
            final(self)@.timed(),
    {
        proof {
            use_type_invariant(&*self);
        }
        let (counter, match_id) = match self.next_free() {
            Some(found) => found,
            None => {
                return Err(ServiceError::Internal("room codes are exhausted"));
            },
        };
        let room = Room {
            phase: MatchPhase::Lobby,
            config,
            opens_at: None,
            closes_at: None,
            settled_at: None,
            challenge,
            seats: TextMap::new(),
            last_seen: now,
        };
        assert(room@.seats =~= Map::<Seq<char>, SeatView>::empty());
        let state = room.public_state(match_id.as_str(), now);
        self.counter = counter;
        self.put(match_id.as_str(), room);
        Ok(state)
    }

    /// Join a lobby.
    pub fn join(
        &mut self,
        match_id: &str,
        player_id: &str,
        display_name: &str,
        now: u64,
    ) -> (r: ServiceResult<MatchState>)
        ensures
            joins(old(self)@, final(self)@, match_id@, player_id@, display_name@, now, r),
            old(self)@.timed(),
            final(self)@.timed(),
    {
        let ghost start = self@;
        let mut room = match self.take(match_id) {
            Ok(room) => room,
            Err(error) => {
                return Err(error);
            },
        };
        let ghost was = room@;
        let ghost old_seats = room.seats@;
        room.last_seen = now;
        let seated = room.seats.len();
        assert(was.seats.dom() =~= room.seats@.dom());
        if room.phase != MatchPhase::Lobby {
            self.put(match_id, room);
            assert(self@.rooms =~= start.with_room(match_id@, was.touched(now)).rooms);
            return Err(ServiceError::SessionTerminated);
        }
        if !room.seats.contains_key(player_id) && seated >= room.config.max_players {
            self.put(match_id, room);
            assert(self@.rooms =~= start.with_room(match_id@, was.touched(now)).rooms);
            return Err(ServiceError::RateLimited);
        }
        let (best, last_submit_at) = match room.seats.remove(player_id) {
            Some(seat) => (seat.best, seat.last_submit_at),
            None => (None, None),
        };
        let seat = Seat {
            display_name: display_name.to_owned(),
            connected: true,
            submitted: false,
            best,
            last_submit_at,
        };
        room.seats.insert(player_id.to_owned(), seat);
        assert(seats_view(room.seats@) =~= seats_view(old_seats).insert(player_id@, seat@));
        let state = room.public_state(match_id, now);
        self.put(match_id, room);
        assert(self@.rooms =~= start.with_room(
            match_id@,
            was.joined(player_id@, display_name@, now),
        ).rooms);
        Ok(state)
    }

    /// Whether the deadline of a round started now is a representable time.
    pub fn can_start(&self, match_id: &str, now: u64) -> (r: bool)
        ensures
            r == (self@.rooms.contains_key(match_id@) ==> now + self@.rooms[match_id@].config.duration_ms
                <= u64::MAX),
    {
        match self.rooms.get(match_id) {
            Some(room) => room.config.duration_ms <= u64::MAX - now,
            None => true,
        }
    }

    /// Start the round: fix the roster, set the deadline, reveal the challenge.
    pub fn start(&mut self, match_id: &str, now: u64) -> (r: ServiceResult<MatchState>)
        requires
            old(self)@.rooms.contains_key(match_id@) ==> now
                + old(self)@.rooms[match_id@].config.duration_ms <= u64::MAX,
        ensures
            starts(old(self)@, final(self)@, match_id@, now, r),
            old(self)@.timed(),
            final(self)@.timed(),
    {
        let ghost start = self@;
        let mut room = match self.take(match_id) {
            Ok(room) => room,
            Err(error) => {
                return Err(error);
            },
        };
        let ghost was = room@;
        room.last_seen = now;
        if room.phase != MatchPhase::Lobby {
            self.put(match_id, room);
            assert(self@.rooms =~= start.with_room(match_id@, was.touched(now)).rooms);
            return Err(ServiceError::SessionTerminated);
        }
        room.phase = MatchPhase::Running;
        room.opens_at = Some(now);
        room.closes_at = Some(now + room.config.duration_ms);
        let state = room.public_state(match_id, now);
        self.put(match_id, room);
        assert(self@.rooms =~= start.with_room(match_id@, was.started(now)).rooms);
        Ok(state)
    }

    /// Current state, settling the phase if the deadline has passed.
    pub fn state(&mut self, match_id: &str, now: u64) -> (r: ServiceResult<MatchState>)
        ensures
            shows_state(old(self)@, final(self)@, match_id@, now, r),
            old(self)@.timed(),
            final(self)@.timed(),
    {
        let ghost start = self@;
        let mut room = match self.take(match_id) {
            Ok(room) => room,
            Err(error) => {
                return Err(error);
            },
        };
        room.settle(now);
        let state = room.public_state(match_id, now);
        let ghost is = room@;
        self.put(match_id, room);
        assert(self@.rooms =~= start.with_room(match_id@, is).rooms);
        Ok(state)
    }

    /// Which challenge the round uses.
    ///
    /// Refused before the start: revealing it during the lobby would hand an
    /// early joiner a head start.
    pub fn challenge_ref(&mut self, match_id: &str, now: u64) -> (r: ServiceResult<MatchChallengeRef>)
        ensures
            reveals(old(self)@, final(self)@, match_id@, now, r),
            old(self)@.timed(),
            final(self)@.timed(),
    {
        let ghost start = self@;
        let mut room = match self.take(match_id) {
            Ok(room) => room,
            Err(error) => {
                return Err(error);
            },
        };
        room.settle(now);
        let ghost is = room@;
        let revealed = room.phase != MatchPhase::Lobby;
        let challenge = room.challenge.clone();
        self.put(match_id, room);
        assert(self@.rooms =~= start.with_room(match_id@, is).rooms);
        if revealed {
            Ok(challenge)
        } else {
            Err(ServiceError::MatchNotReady("The challenge is revealed when the round starts."))
        }
    }

    /// Record a scored submission against a round.
    ///
    /// The reply carries no score. Acceptance is judged purely on server receive
    /// time against the deadline.
    pub fn submit(
        &mut self,
        match_id: &str,
        player_id: &str,
        result: &SubmissionResult,
        now: u64,
    ) -> (r: ServiceResult<MatchSubmissionAck>)
        ensures
            submits(old(self)@, final(self)@, match_id@, player_id@, *result, now, r),
            old(self)@.timed(),
            final(self)@.timed(),
    {
        let ghost start = self@;
        let mut room = match self.take(match_id) {
            Ok(room) => room,
            Err(error) => {
                return Err(error);
            },
        };
        room.settle(now);
        let refused = room.refusal(player_id, result, now);
        if refused.is_none() {
            room.enter(player_id, result, now);
        }
        let ghost is = room@;
        self.put(match_id, room);
        assert(self@.rooms =~= start.with_room(match_id@, is).rooms);
        Ok(
            MatchSubmissionAck {
                submission_id: result.submission_id.clone(),
                accepted: refused.is_none(),
                server_received_at: now,
                rejected_reason: refused,
            },
        )
    }

    /// Final standings.
    ///
    /// Refused while the round is running: publishing early is what the
    /// hidden-score rule exists to prevent.
    pub fn results(&mut self, match_id: &str, now: u64) -> (r: ServiceResult<MatchResults>)
        ensures
            publishes(old(self)@, final(self)@, match_id@, now, r),
            old(self)@.timed(),
            final(self)@.timed(),
    {
        let ghost start = self@;
        let mut room = match self.take(match_id) {
            Ok(room) => room,
            Err(error) => {
                return Err(error);
            },
        };
        room.settle(now);
        let ghost is = room@;
        if room.phase != MatchPhase::Results {
            self.put(match_id, room);
            assert(self@.rooms =~= start.with_room(match_id@, is).rooms);
            return Err(ServiceError::MatchNotReady("Results are published when the round closes."));
        }
        let results = MatchResults {
            match_id: match_id.to_owned(),
            challenge_id: room.challenge.challenge_id.clone(),
            challenge_version: room.challenge.version,
            rank_by: room.config.rank_by,
            programming_mode: room.config.programming_mode,
            rows: room.standings(),
        };
        self.put(match_id, room);
        assert(self@.rooms =~= start.with_room(match_id@, is).rooms);
        Ok(results)
    }

    /// Abandon a round that never ran.
    pub fn cancel(&mut self, match_id: &str, now: u64) -> (r: ServiceResult<MatchState>)
        ensures
            cancels(old(self)@, final(self)@, match_id@, now, r),
            old(self)@.timed(),
            final(self)@.timed(),
    {
        let ghost start = self@;
        let mut room = match self.take(match_id) {
            Ok(room) => room,
            Err(error) => {
                return Err(error);
            },
        };
        room.last_seen = now;
        room.phase = MatchPhase::Cancelled;
        let state = room.public_state(match_id, now);
        let ghost is = room@;
        self.put(match_id, room);
        assert(self@.rooms =~= start.with_room(match_id@, is).rooms);
        Ok(state)
    }

    /// Live round count.
    pub fn len(&self) -> (r: usize)
        ensures
            r == self@.rooms.len(),
            self@.rooms.dom().finite(),
    {
        let r = self.rooms.len();
        assert(self@.rooms.dom() =~= self.rooms@.dom());
        r
    }

    /// Whether no rounds exist.
    pub fn is_empty(&self) -> (r: bool)
        ensures
            r == (self@.rooms == Map::<Seq<char>, RoomView>::empty()),
    {
        let r = self.len() == 0;
        proof {
            if r {
                assert(self@.rooms.dom() =~= Set::empty());
                assert(self@.rooms =~= Map::<Seq<char>, RoomView>::empty());
            }
        }
        r
    }
}

/// Whether results are those of a closed round.
pub open spec fn published(results: MatchResults, match_id: Seq<char>, room: RoomView) -> bool {
    &&& results.match_id@ == match_id
    &&& results.challenge_id == room.challenge.challenge_id
    &&& results.challenge_version == room.challenge.version
    &&& results.rank_by == room.config.rank_by
    &&& results.programming_mode == room.config.programming_mode
    &&& are_standings(results.rows@, room.seats, room.config.rank_by)
}


impl MatchRegistry {
    /// Drop rounds nobody is using any more, and name them.
    ///
    /// A running round is never dropped regardless of age: it settles on its own
    /// deadline, and dropping one would delete a competition in progress.
    pub fn evict_idle(
        &mut self,
        now: u64,
        results_retention_ms: u64,
        lobby_idle_timeout_ms: u64,
    ) -> (removed: Vec<String>)
        ensures
            evicts(
                old(self)@,
                final(self)@,
                now,
                results_retention_ms,
                lobby_idle_timeout_ms,
                removed@,
            ),
            old(self)@.timed(),
            final(self)@.timed(),
    {
        proof {
            use_type_invariant(&*self);
        }
        let ghost start = self@;
        let ghost rooms = self.rooms@;
        let ghost keys = self.rooms.keys();
        let count = self.rooms.len();
        let mut removed: Vec<String> = Vec::new();
        for i in 0..count
            invariant
                count == keys.len(),
                keys == self.rooms.keys(),
                keys.no_duplicates(),
                rooms == self.rooms@,
                start == self@,
                forall|j: int|
                    0 <= j < removed@.len() ==> keys.take(i as int).contains((#[trigger] removed@[j])@)
                        && rooms.contains_key(removed@[j]@) && rooms[removed@[j]@]@.expired(
                        now,
                        results_retention_ms,
                        lobby_idle_timeout_ms,
                    ),
                forall|a: int, b: int|
                    0 <= a < b < removed@.len() ==> (#[trigger] removed@[a])@ != (#[trigger] removed@[b])@,
                forall|j: int|
                    0 <= j < i && rooms[#[trigger] keys[j]]@.expired(
                        now,
                        results_retention_ms,
                        lobby_idle_timeout_ms,
                    ) ==> names(removed@, keys[j]),
        {
            let ghost before = removed@;
            let room = self.rooms.value_at(i);
            let idle: u64 = if now >= room.last_seen { now - room.last_seen } else { 0 };
            let expired = match room.phase {
                MatchPhase::Results | MatchPhase::Cancelled => idle > results_retention_ms,
                MatchPhase::Lobby | MatchPhase::Countdown => idle > lobby_idle_timeout_ms,
                MatchPhase::Running | MatchPhase::Grading => false,
            };
            if expired {
                removed.push(self.rooms.key_at(i).clone());
            }
            proof {
                let done = keys.take(i as int);
                let next = keys.take(i + 1);
                assert(next =~= done.push(keys[i as int]));
                assert forall|j: int| 0 <= j < removed@.len() implies next.contains(
                    (#[trigger] removed@[j])@,
                ) by {
                    if j < before.len() {
                        assert(removed@[j] == before[j]);
                        assert(done.contains(before[j]@));
                        let k = choose|k: int| 0 <= k < done.len() && done[k] == before[j]@;
                        assert(next[k] == before[j]@);
                    } else {
                        assert(next[i as int] == removed@[j]@);
                    }
                }
                if expired {
                    assert(!done.contains(keys[i as int]));
                    assert forall|a: int, b: int| 0 <= a < b < removed@.len() implies (
                    #[trigger] removed@[a])@ != (#[trigger] removed@[b])@ by {
                        if b == before.len() {
                            assert(done.contains(before[a]@));
                        }
                    }
                    assert(removed@[before.len() as int]@ == keys[i as int]);
                }
                assert forall|j: int| 0 <= j < i + 1 && rooms[#[trigger] keys[j]]@.expired(
                    now,
                    results_retention_ms,
                    lobby_idle_timeout_ms,
                ) implies names(removed@, keys[j]) by {
                    if j < i {
                        assert(names(before, keys[j]));
                        let k = choose|k: int| 0 <= k < before.len() && (#[trigger] before[k])@ == keys[j];
                        assert(removed@[k]@ == keys[j]);
                    } else {
                        assert(removed@[before.len() as int]@ == keys[j]);
                    }
                }
            }
        }
        proof {
            assert forall|id: Seq<char>| #[trigger] rooms.contains_key(id) && rooms[id]@.expired(
                now,
                results_retention_ms,
                lobby_idle_timeout_ms,
            ) implies names(removed@, id) by {
                assert(keys.to_set().contains(id));
                let j = choose|j: int| 0 <= j < keys.len() && keys[j] == id;
                assert(rooms[keys[j]]@.expired(now, results_retention_ms, lobby_idle_timeout_ms));
            }
        }
        let mut kept = TextMap::new();
        std::mem::swap(&mut kept, &mut self.rooms);
        for i in 0..removed.len()
            invariant
                forall|id: Seq<char>| #[trigger]
                    kept@.contains_key(id) ==> rooms.contains_key(id) && kept@[id] == rooms[id],
                forall|id: Seq<char>|
                    rooms.contains_key(id) && !(#[trigger] kept@.contains_key(id)) ==> names(
                        removed@.take(i as int),
                        id,
                    ),
                forall|j: int| 0 <= j < i ==> !kept@.contains_key((#[trigger] removed@[j])@),
        {
            let ghost left = kept@;
            let _ = kept.remove(removed[i].as_str());
            assert forall|id: Seq<char>|
                rooms.contains_key(id) && !(#[trigger] kept@.contains_key(id)) implies names(
                removed@.take(i + 1),
                id,
            ) by {
                if left.contains_key(id) {
                    assert(removed@.take(i + 1)[i as int]@ == id);
                } else {
                    let done = removed@.take(i as int);
                    assert(names(done, id));
                    let k = choose|k: int| 0 <= k < done.len() && (#[trigger] done[k])@ == id;
                    assert(removed@.take(i + 1)[k]@ == id);
                }
            }
        }
        proof {
            assert forall|id: Seq<char>| #[trigger] rooms_view(kept@).contains_key(id) implies rooms_view(
                kept@,
            )[id].timed() by {
                assert(kept@.contains_key(id));
                assert(start.rooms.contains_key(id));
            }
        }
        self.rooms = kept;
        proof {
            assert(removed@.take(removed@.len() as int) =~= removed@);
            assert forall|id: Seq<char>| #[trigger] self@.rooms.contains_key(id) <==> start.rooms.contains_key(
                id,
            ) && !start.rooms[id].expired(now, results_retention_ms, lobby_idle_timeout_ms) by {
                if rooms.contains_key(id) && rooms[id]@.expired(
                    now,
                    results_retention_ms,
                    lobby_idle_timeout_ms,
                ) {
                    assert(names(removed@, id));
                    let k = choose|k: int| 0 <= k < removed@.len() && (#[trigger] removed@[k])@ == id;
                    assert(!self.rooms@.contains_key(removed@[k]@));
                }
                if rooms.contains_key(id) && !self.rooms@.contains_key(id) {
                    assert(names(removed@, id));
                    let k = choose|k: int| 0 <= k < removed@.len() && (#[trigger] removed@[k])@ == id;
                    assert(rooms[removed@[k]@]@.expired(
                        now,
                        results_retention_ms,
                        lobby_idle_timeout_ms,
                    ));
                }
            }
        }
        removed
    }
}

/// Whether a list of texts holds one.
pub open spec fn names(texts: Seq<String>, text: Seq<char>) -> bool {
    exists|i: int| 0 <= i < texts.len() && (#[trigger] texts[i])@ == text
}

// ---------------------------------------------------------------------------
// What the rules guarantee
// ---------------------------------------------------------------------------

/// The best attempt counts: after a submission is entered, neither the attempt
/// nor the best so far outranks what is kept, and what is kept is one of them.
pub proof fn law_best_attempt_counts(
    room: RoomView,
    player: Seq<char>,
    result: SubmissionResult,
    now: u64,
)
    requires
        room.seats.contains_key(player),
        seat_comparable(room.seats[player]),
        Entry::of_result(result, now).comparable(),
    ensures
        ({
            let attempt = Entry::of_result(result, now);
            let before = room.seats[player].best;
            let after = room.entered(player, result, now).seats[player].best;
            &&& after is Some
            &&& after == before || after == Some(attempt)
            &&& !attempt.outranks(after->0, room.config.rank_by)
            &&& before is Some ==> !before->0.outranks(after->0, room.config.rank_by)
        }),
{
}

/// A submission touches nobody else's seat, nor the settings of the round.
pub proof fn law_submitting_leaves_others_alone(
    room: RoomView,
    player: Seq<char>,
    result: SubmissionResult,
    now: u64,
    other: Seq<char>,
)
    requires
        room.seats.contains_key(player),
        other != player,
    ensures
        ({
            let after = room.entered(player, result, now);
            &&& after.seats.contains_key(other) == room.seats.contains_key(other)
            &&& room.seats.contains_key(other) ==> after.seats[other] == room.seats[other]
            &&& after.seats.dom() == room.seats.dom()
            &&& after.config == room.config
            &&& after.closes_at == room.closes_at
            &&& after.phase == room.phase
        }),
{
    assert(room.entered(player, result, now).seats.dom() =~= room.seats.dom());
}

/// Only the server clock decides: a submission counts only from a participant,
/// in a running round, strictly before the deadline.
pub proof fn law_acceptance_is_before_the_deadline(
    room: RoomView,
    player: Seq<char>,
    result: SubmissionResult,
    now: u64,
)
    requires
        room.timed(),
        room.settled(now).rejection(player, result, now) is None,
    ensures
        room.phase is Running,
        room.seats.contains_key(player),
        room.closes_at matches Some(closes) && now < closes,
        result.challenge_id@ == room.challenge.challenge_id@,
        result.challenge_version == room.challenge.version,
        result.programming_mode == room.config.programming_mode,
{
}

/// The times of a round agree with its phase, whatever happens to it: a lobby has no
/// deadline yet, starting sets it, nothing else moves it, and results are shown only
/// once it has passed.
pub proof fn law_times_agree_with_the_phase(
    room: RoomView,
    config: MatchConfig,
    challenge: MatchChallengeRef,
    player: Seq<char>,
    name: Seq<char>,
    result: SubmissionResult,
    now: u64,
)
    requires
        room.timed(),
    ensures
        RoomView::opened(config, challenge, now).timed(),
        room.settled(now).timed(),
        room.touched(now).timed(),
        room.joined(player, name, now).timed(),
        now + room.config.duration_ms <= u64::MAX ==> room.started(now).timed(),
        room.entered(player, result, now).timed(),
        room.cancelled(now).timed(),
        room.settled(now).closes_at == room.closes_at,
        room.touched(now).closes_at == room.closes_at,
        room.joined(player, name, now).closes_at == room.closes_at,
        room.entered(player, result, now).closes_at == room.closes_at,
        room.cancelled(now).closes_at == room.closes_at,
        room.phase is Lobby ==> room.closes_at is None,
        room.phase is Running ==> room.closes_at is Some,
{
}

/// Standings that are published are past the deadline: the round settled no earlier
/// than it closed, either now or when its results were first asked for.
pub proof fn law_published_results_are_past_the_deadline(
    before: RegistryView,
    after: RegistryView,
    match_id: Seq<char>,
    now: u64,
    results: MatchResults,
)
    requires
        before.timed(),
        publishes(before, after, match_id, now, Ok(results)),
    ensures
        after.rooms.contains_key(match_id),
        ({
            let room = after.rooms[match_id];
            &&& room.closes_at matches Some(closes) && (room.settled_at matches Some(settled) && closes
                <= settled)
            &&& before.rooms[match_id].phase is Running ==> room.settled_at == Some(now)
            &&& before.rooms[match_id].phase is Running || before.rooms[match_id].phase is Results
        }),
{
}

/// An acknowledgement never tells a score: whether a submission counts does not
/// depend on how it scored.
pub proof fn law_acceptance_ignores_the_score(
    room: RoomView,
    player: Seq<char>,
    one: SubmissionResult,
    other: SubmissionResult,
    now: u64,
)
    requires
        one.challenge_id@ == other.challenge_id@,
        one.challenge_version == other.challenge_version,
        one.programming_mode == other.programming_mode,
    ensures
        room.rejection(player, one, now) == room.rejection(player, other, now),
{
}

/// The challenge stays hidden while the lobby is open: neither reading nor
/// joining leaves the lobby.
pub proof fn law_lobby_stays_until_started(room: RoomView, player: Seq<char>, name: Seq<char>, now: u64)
    requires
        room.phase is Lobby,
    ensures
        room.settled(now).phase is Lobby,
        room.touched(now).phase is Lobby,
        room.joined(player, name, now).phase is Lobby,
{
}

/// Everyone faces the identical challenge: nothing that happens to a round
/// changes which one it is.
pub proof fn law_challenge_never_changes(
    room: RoomView,
    player: Seq<char>,
    name: Seq<char>,
    result: SubmissionResult,
    now: u64,
)
    ensures
        room.settled(now).challenge == room.challenge,
        room.touched(now).challenge == room.challenge,
        room.joined(player, name, now).challenge == room.challenge,
        room.started(now).challenge == room.challenge,
        room.entered(player, result, now).challenge == room.challenge,
        room.cancelled(now).challenge == room.challenge,
{
}

/// Scores stay hidden until the round closes: a started round reaches its
/// results exactly when its duration has passed.
pub proof fn law_results_wait_for_the_deadline(room: RoomView, opened: u64, now: u64)
    requires
        opened + room.config.duration_ms <= u64::MAX,
    ensures
        room.started(opened).settled(now).phase is Results <==> now >= opened + room.config.duration_ms,
        now < opened + room.config.duration_ms ==> room.started(opened).settled(now).phase is Running,
{
}

/// Settling twice at the same moment is settling once.
pub proof fn law_settling_is_idempotent(room: RoomView, now: u64)
    ensures
        room.settled(now).settled(now) == room.settled(now),
{
}

/// A running round is never dropped, whatever its age.
pub proof fn law_running_rounds_are_never_dropped(
    room: RoomView,
    now: u64,
    results_retention_ms: u64,
    lobby_idle_timeout_ms: u64,
)
    requires
        room.phase is Running || room.phase is Grading,
    ensures
        !room.expired(now, results_retention_ms, lobby_idle_timeout_ms),
{
}

/// Reading a round keeps it alive for as long as the limits say.
pub proof fn law_reading_keeps_a_round_alive(
    room: RoomView,
    read_at: u64,
    now: u64,
    results_retention_ms: u64,
    lobby_idle_timeout_ms: u64,
)
    requires
        now <= read_at + results_retention_ms,
        now <= read_at + lobby_idle_timeout_ms,
    ensures
        !room.settled(read_at).expired(now, results_retention_ms, lobby_idle_timeout_ms),
{
}

/// Ranking on completion ranks on completion: the higher completion score
/// outranks whatever the weighted scores are.
pub proof fn law_completion_decides(a: Entry, b: Entry)
    requires
        b.completion_score.below(a.completion_score),
    ensures
        a.outranks(b, RankBy::Completion),
        !b.outranks(a, RankBy::Completion),
{
}

/// Ranking on the weighted score ranks on the weighted score.
pub proof fn law_the_weighted_score_decides(a: Entry, b: Entry)
    requires
        b.final_score.below(a.final_score),
    ensures
        a.outranks(b, RankBy::Final),
        !b.outranks(a, RankBy::Final),
{
}

/// With equal deciding scores the higher efficiency outranks; with that equal too, the
/// shorter program; and with all of it equal, the attempt that arrived earlier.
pub proof fn law_ties_are_broken_in_order(a: Entry, b: Entry, rank_by: RankBy)
    requires
        a.comparable(),
        b.comparable(),
        rank_by is Completion ==> a.completion_score.rank() == b.completion_score.rank(),
        rank_by is Final ==> a.final_score.rank() == b.final_score.rank(),
    ensures
        b.efficiency_score.rank() < a.efficiency_score.rank() ==> a.outranks(b, rank_by)
            && !b.outranks(a, rank_by),
        a.efficiency_score.rank() == b.efficiency_score.rank()
            && a.metrics.estimated_duration_ms.rank() < b.metrics.estimated_duration_ms.rank()
            ==> a.outranks(b, rank_by) && !b.outranks(a, rank_by),
        a.efficiency_score.rank() == b.efficiency_score.rank()
            && a.metrics.estimated_duration_ms.rank() == b.metrics.estimated_duration_ms.rank()
            && a.server_received_at < b.server_received_at ==> a.outranks(b, rank_by)
            && !b.outranks(a, rank_by),
        a.efficiency_score.rank() == b.efficiency_score.rank()
            && a.metrics.estimated_duration_ms.rank() == b.metrics.estimated_duration_ms.rank()
            && a.server_received_at == b.server_received_at ==> !a.outranks(b, rank_by)
            && !b.outranks(a, rank_by),
{
}

/// Submitting the same program again does not replace the earlier attempt, which arrived
/// first, and changes nobody's place.
pub proof fn law_resubmitting_does_not_lose_the_earlier_arrival(
    room: RoomView,
    player: Seq<char>,
    result: SubmissionResult,
    earlier: u64,
    now: u64,
)
    requires
        room.seats.contains_key(player),
        room.seats[player].best == Some(Entry::of_result(result, earlier)),
        Entry::of_result(result, earlier).comparable(),
        earlier <= now,
    ensures
        room.entered(player, result, now).seats[player].best == room.seats[player].best,
{
}

/// Of two players with the same scores and the same duration, the one whose attempt
/// arrived earlier places first.
pub proof fn law_the_earlier_player_places_first(
    a_id: Seq<char>,
    a: SeatView,
    b_id: Seq<char>,
    b: SeatView,
    rank_by: RankBy,
)
    requires
        a.best is Some,
        b.best is Some,
        a.best->0.comparable(),
        b.best->0.comparable(),
        a.best->0.completion_score == b.best->0.completion_score,
        a.best->0.final_score == b.best->0.final_score,
        a.best->0.efficiency_score == b.best->0.efficiency_score,
        a.best->0.metrics == b.best->0.metrics,
        a.best->0.server_received_at < b.best->0.server_received_at,
    ensures
        places_before(a_id, a, b_id, b, rank_by),
        !places_before(b_id, b, a_id, a, rank_by),
{
}

/// A player who never submitted places after everyone who did.
pub proof fn law_absent_players_place_last(
    a_id: Seq<char>,
    a: SeatView,
    b_id: Seq<char>,
    b: SeatView,
    rank_by: RankBy,
)
    requires
        a.best is Some,
        b.best is None,
    ensures
        places_before(a_id, a, b_id, b, rank_by),
        !places_before(b_id, b, a_id, a, rank_by),
{
}


/// In a running round, before its deadline, a player who holds a seat and hands in the round's own
/// challenge, in the round's version and mode, is turned away for nothing but haste: the first
/// attempt counts, and so does every later one that leaves the shortest interval behind the last,
/// to the millisecond. One that comes sooner does not.
pub proof fn law_a_proper_attempt_counts(
    room: RoomView,
    player: Seq<char>,
    result: SubmissionResult,
    now: u64,
)
    requires
        room.phase is Running,
        room.closes_at is Some,
        now < room.closes_at->0,
        room.seats.contains_key(player),
        result.challenge_id@ == room.challenge.challenge_id@,
        result.challenge_version == room.challenge.version,
        result.programming_mode == room.config.programming_mode,
    ensures
        room.seats[player].last_submit_at is None ==> room.rejection(player, result, now) is None,
        room.seats[player].last_submit_at matches Some(previous) ==> (previous
            + room.config.min_submit_interval_ms <= now ==> room.rejection(player, result, now) is None),
        room.seats[player].last_submit_at matches Some(previous) ==> (previous <= now && now < previous
            + room.config.min_submit_interval_ms ==> room.rejection(player, result, now) == Some(
            MatchRejection::RateLimited,
        )),
{
}

/// Each reason for turning an attempt away holds of the attempt: a stranger holds no seat; a late
/// attempt comes at the deadline or after it; another challenge, another version or another mode
/// differs from the round's; and only somebody who has handed in before is asked to wait.
pub proof fn law_a_rejection_names_its_reason(
    room: RoomView,
    player: Seq<char>,
    result: SubmissionResult,
    now: u64,
)
    ensures
        room.rejection(player, result, now) == Some(MatchRejection::NotParticipant)
            <==> !room.seats.contains_key(player),
        room.rejection(player, result, now) == Some(MatchRejection::AfterDeadline) ==> (
        room.closes_at matches Some(close) && now >= close),
        room.rejection(player, result, now) == Some(MatchRejection::WrongPhase) ==> !(
        room.phase is Running),
        room.rejection(player, result, now) == Some(MatchRejection::WrongChallenge) ==> (
        result.challenge_id@ != room.challenge.challenge_id@ || result.challenge_version
            != room.challenge.version),
        room.rejection(player, result, now) == Some(MatchRejection::WrongProgrammingMode)
            ==> result.programming_mode != room.config.programming_mode,
        room.rejection(player, result, now) == Some(MatchRejection::RateLimited) ==> room.seats[player]
            .last_submit_at is Some,
        room.rejection(player, result, now) is None ==> room.phase is Running
            && room.seats.contains_key(player) && result.challenge_id@ == room.challenge.challenge_id@
            && result.challenge_version == room.challenge.version && result.programming_mode
            == room.config.programming_mode,
{
}

/// An accepted attempt is remembered as it was scored: the seat is marked as having handed in, at
/// this instant; a first attempt stands as the seat's best, with the three scores, the metrics and
/// the identifier of its result; and neither the name nor the presence of the player changes.
pub proof fn law_an_attempt_is_remembered_as_scored(
    room: RoomView,
    player: Seq<char>,
    result: SubmissionResult,
    now: u64,
)
    requires
        room.seats.contains_key(player),
    ensures
        ({
            let seat = room.entered(player, result, now).seats[player];
            &&& seat.submitted
            &&& seat.last_submit_at == Some(now)
            &&& seat.display_name == room.seats[player].display_name
            &&& seat.connected == room.seats[player].connected
            &&& seat.best is Some
            &&& room.seats[player].best is None ==> {
                &&& seat.best->0.submission_id == result.submission_id
                &&& seat.best->0.completion_score == result.score.completion_score
                &&& seat.best->0.final_score == result.score.final_score
                &&& seat.best->0.efficiency_score == result.score.efficiency_score
                &&& seat.best->0.metrics == result.metrics
                &&& seat.best->0.server_received_at == now
            }
        }),
{
}

/// After a player takes a seat, the seat bears the name given, its player is present and has still
/// to hand in; somebody new starts without an attempt, somebody returning keeps the best one and
/// the time of the last; and every other seat is as it was.
pub proof fn law_a_seat_is_taken_for_one_player(
    room: RoomView,
    player: Seq<char>,
    other: Seq<char>,
    name: Seq<char>,
    now: u64,
)
    ensures
        ({
            let after = room.joined(player, name, now);
            &&& after.seats.contains_key(player)
            &&& after.seats[player].display_name == name
            &&& after.seats[player].connected
            &&& !after.seats[player].submitted
            &&& !room.seats.contains_key(player) ==> after.seats[player].best is None
                && after.seats[player].last_submit_at is None
            &&& room.seats.contains_key(player) ==> after.seats[player].best == room.seats[player].best
                && after.seats[player].last_submit_at == room.seats[player].last_submit_at
            &&& other != player ==> (after.seats.contains_key(other) <==> room.seats.contains_key(other))
            &&& other != player && room.seats.contains_key(other) ==> after.seats[other]
                == room.seats[other]
        }),
{
}

/// A seat stays its player's: in a full lobby a newcomer is refused for want of room and nobody
/// loses a seat, while whoever holds one may take it again.
pub proof fn law_a_full_lobby_keeps_its_players(
    before: RegistryView,
    after: RegistryView,
    match_id: Seq<char>,
    player: Seq<char>,
    name: Seq<char>,
    now: u64,
    r: ServiceResult<MatchState>,
)
    requires
        joins(before, after, match_id, player, name, now, r),
        before.rooms.contains_key(match_id),
        before.rooms[match_id].phase is Lobby,
    ensures
        before.rooms[match_id].seats.contains_key(player) ==> r is Ok,
        before.rooms[match_id].seats.len() < before.rooms[match_id].config.max_players ==> r is Ok,
        !before.rooms[match_id].seats.contains_key(player) && before.rooms[match_id].seats.len()
            == before.rooms[match_id].config.max_players ==> (r matches Err(error)
            && error is RateLimited && after.rooms[match_id].seats == before.rooms[match_id].seats),
{
}

/// A round that starts runs from this instant, for as long as it was set up for, with the seats it
/// has; it is over at the end of that time and not a millisecond before.
pub proof fn law_a_round_runs_its_time(room: RoomView, now: u64, later: u64)
    requires
        room.phase is Lobby,
        now + room.config.duration_ms <= u64::MAX,
        now <= later,
    ensures
        room.started(now).phase is Running,
        room.started(now).opens_at == Some(now),
        room.started(now).seats == room.seats,
        room.started(now).closes_at is Some,
        room.started(now).closes_at->0 - now == room.config.duration_ms,
        room.started(now).settled(later).phase is Results <==> later - now >= room.config.duration_ms,
        room.started(now).settled(later).phase is Running <==> later - now < room.config.duration_ms,
{
}

/// How long a round that nobody looks at is kept: with results or cancelled, through the whole
/// retention and no longer; in the lobby, through the whole idle time and no longer. Neither limit
/// bears on the other.
pub proof fn law_rounds_are_kept_their_time(
    room: RoomView,
    retention_ms: u64,
    idle_ms: u64,
    now: u64,
)
    requires
        room.last_seen <= now,
    ensures
        room.phase is Results || room.phase is Cancelled ==> (room.expired(now, retention_ms, idle_ms)
            <==> now - room.last_seen > retention_ms),
        room.phase is Lobby ==> (room.expired(now, retention_ms, idle_ms) <==> now - room.last_seen
            > idle_ms),
{
}

/// In published standings every player's row tells that player's best attempt: its two scores, its
/// metrics, its identifier and when it arrived; a player without one scores nothing. The first row
/// has rank one, and each row one more than the row before it.
pub proof fn law_a_row_tells_the_best_attempt(
    rows: Seq<MatchResultRow>,
    seats: Map<Seq<char>, SeatView>,
    rank_by: RankBy,
    i: int,
)
    requires
        are_standings(rows, seats, rank_by),
        0 <= i < rows.len() <= u32::MAX,
    ensures
        rows[0].rank == 1,
        i > 0 ==> rows[i].rank == rows[i - 1].rank + 1,
        seats.contains_key(rows[i].player_id@),
        rows[i].display_name@ == seats[rows[i].player_id@].display_name,
        seats[rows[i].player_id@].best matches Some(best) ==> (rows[i].completion_score
            == best.completion_score && rows[i].final_score == best.final_score && rows[i].metrics
            == best.metrics && rows[i].submission_id == Some(best.submission_id)
            && rows[i].server_received_at == Some(best.server_received_at)),
        seats[rows[i].player_id@].best is None ==> rows[i].submission_id is None
            && rows[i].server_received_at is None && rows[i].completion_score.bits == 0
            && rows[i].final_score.bits == 0,
{
    let _ = rows[0].rank;
    if i > 0 {
        let _ = rows[i - 1].rank;
    }
}


/// Starting, cancelling, joining and looking at a round leave its settings and its challenge as they
/// are; starting and cancelling leave every seat as it is too.
pub proof fn law_a_round_keeps_its_settings_and_seats(
    room: RoomView,
    player: Seq<char>,
    name: Seq<char>,
    now: u64,
)
    ensures
        room.started(now).config == room.config,
        room.cancelled(now).config == room.config,
        room.joined(player, name, now).config == room.config,
        room.settled(now).config == room.config,
        room.cancelled(now).phase is Cancelled,
        room.cancelled(now).seats == room.seats,
        room.started(now).seats == room.seats,
        room.settled(now).seats == room.seats,
        room.cancelled(now).challenge == room.challenge,
        room.settled(now).opens_at == room.opens_at,
        room.settled(now).closes_at == room.closes_at,
        room.joined(player, name, now).phase == room.phase,
        room.started(now).last_seen == now,
        room.cancelled(now).last_seen == now,
        room.settled(now).last_seen >= now,
        room.settled(now).last_seen >= room.last_seen,
{
}

/// Whatever is asked of a round that does not exist is answered by saying that it is not there, and
/// changes nothing.
pub proof fn law_a_round_that_is_not_there_is_not_found(
    before: RegistryView,
    after: RegistryView,
    match_id: Seq<char>,
    player: Seq<char>,
    name: Seq<char>,
    result: SubmissionResult,
    now: u64,
    state: ServiceResult<MatchState>,
    challenge: ServiceResult<MatchChallengeRef>,
    ack: ServiceResult<MatchSubmissionAck>,
    results: ServiceResult<MatchResults>,
)
    requires
        !before.rooms.contains_key(match_id),
    ensures
        joins(before, after, match_id, player, name, now, state) || starts(
            before,
            after,
            match_id,
            now,
            state,
        ) || shows_state(before, after, match_id, now, state) || cancels(
            before,
            after,
            match_id,
            now,
            state,
        ) ==> after == before && (state matches Err(ServiceError::SessionNotFound(id)) && id@
            == match_id),
        reveals(before, after, match_id, now, challenge) ==> after == before && (challenge matches Err(
            ServiceError::SessionNotFound(id),
        ) && id@ == match_id),
        submits(before, after, match_id, player, result, now, ack) ==> after == before && (
        ack matches Err(ServiceError::SessionNotFound(id)) && id@ == match_id),
        publishes(before, after, match_id, now, results) ==> after == before && (results matches Err(
            ServiceError::SessionNotFound(id),
        ) && id@ == match_id),
{
}

/// A round starts from its lobby and only from there; nobody joins it afterwards; and the challenge,
/// hidden in the lobby, is shown from the start on as the one the round was opened with.
pub proof fn law_a_round_starts_once(
    before: RegistryView,
    after: RegistryView,
    match_id: Seq<char>,
    player: Seq<char>,
    name: Seq<char>,
    now: u64,
    state: ServiceResult<MatchState>,
    challenge: ServiceResult<MatchChallengeRef>,
)
    requires
        before.rooms.contains_key(match_id),
    ensures
        starts(before, after, match_id, now, state) ==> (state is Ok <==> before.rooms[match_id].phase
            is Lobby),
        starts(before, after, match_id, now, state) && state is Ok ==> after.rooms[match_id].phase
            is Running,
        starts(before, after, match_id, now, state) && state is Err ==> after.rooms[match_id].phase
            == before.rooms[match_id].phase,
        joins(before, after, match_id, player, name, now, state) && !(before.rooms[match_id].phase
            is Lobby) ==> (state matches Err(ServiceError::SessionTerminated))
            && after.rooms[match_id].seats == before.rooms[match_id].seats,
        reveals(before, after, match_id, now, challenge) && before.rooms[match_id].phase is Lobby
            ==> challenge matches Err(ServiceError::MatchNotReady(_)),
        reveals(before, after, match_id, now, challenge) && !(before.rooms[match_id].phase is Lobby)
            ==> (challenge matches Ok(shown) && shown == before.rooms[match_id].challenge),
{
}

/// Results are published when the round is over and not before: a running round publishes them from
/// its deadline on, a round in its lobby or cancelled never does.
pub proof fn law_results_are_published_when_the_round_is_over(
    before: RegistryView,
    after: RegistryView,
    match_id: Seq<char>,
    now: u64,
    r: ServiceResult<MatchResults>,
)
    requires
        before.rooms.contains_key(match_id),
        publishes(before, after, match_id, now, r),
    ensures
        before.rooms[match_id].phase is Running && before.rooms[match_id].closes_at is Some ==> (r is Ok
            <==> now >= before.rooms[match_id].closes_at->0),
        before.rooms[match_id].phase is Results ==> r is Ok,
        before.rooms[match_id].phase is Lobby || before.rooms[match_id].phase is Cancelled
            ==> r matches Err(ServiceError::MatchNotReady(_)),
        r matches Ok(results) ==> (results.match_id@ == match_id && results.challenge_id
            == before.rooms[match_id].challenge.challenge_id && results.challenge_version
            == before.rooms[match_id].challenge.version && results.rank_by
            == before.rooms[match_id].config.rank_by && results.rows@.len()
            == before.rooms[match_id].seats.len()),
{
}

/// An attempt that is turned away leaves every seat as it was, and is told why; one that counts is
/// acknowledged at the instant it arrived.
pub proof fn law_an_attempt_is_acknowledged(
    before: RegistryView,
    after: RegistryView,
    match_id: Seq<char>,
    player: Seq<char>,
    result: SubmissionResult,
    now: u64,
    r: ServiceResult<MatchSubmissionAck>,
)
    requires
        before.rooms.contains_key(match_id),
        submits(before, after, match_id, player, result, now, r),
    ensures
        r matches Ok(ack) && ack.submission_id == result.submission_id && ack.server_received_at == now
            && (ack.accepted <==> ack.rejected_reason is None) && (!ack.accepted
            ==> after.rooms[match_id].seats == before.rooms[match_id].seats) && (ack.accepted
            ==> after.rooms[match_id].seats[player].submitted),
{
}

/// A new round takes a code that no round has, and leaves every other round as it is.
pub proof fn law_a_new_round_disturbs_no_other(
    before: RegistryView,
    after: RegistryView,
    config: MatchConfig,
    challenge: MatchChallengeRef,
    now: u64,
    state: MatchState,
    other: Seq<char>,
)
    requires
        creates(before, after, config, challenge, now, Ok(state)),
    ensures
        !before.rooms.contains_key(state@.match_id),
        after.rooms.contains_key(state@.match_id),
        after.rooms[state@.match_id].phase is Lobby,
        after.rooms[state@.match_id].challenge == challenge,
        after.rooms[state@.match_id].config == config,
        other != state@.match_id ==> (after.rooms.contains_key(other) <==> before.rooms.contains_key(
            other,
        )) && after.rooms[other] == before.rooms[other],
        after.counter > before.counter,
{
}


/// What is shown of a round is its own: phase, settings and times as they stand, the time of the
/// server, and every player once, with the name they gave, whether they are present and whether they
/// have handed in.
pub proof fn law_a_round_shows_its_players(
    room: RoomView,
    state: MatchStateView,
    match_id: Seq<char>,
    now: u64,
    player: Seq<char>,
)
    requires
        room.shows(state, match_id, now),
    ensures
        state.match_id == match_id,
        state.phase == room.phase,
        state.config == room.config,
        state.opens_at == room.opens_at,
        state.closes_at == room.closes_at,
        state.server_time == now,
        room.seats.contains_key(player) <==> exists|i: int|
            0 <= i < state.players.len() && (#[trigger] state.players[i]).player_id == player,
        forall|i: int|
            0 <= i < state.players.len() && (#[trigger] state.players[i]).player_id == player
                ==> state.players[i].display_name == room.seats[player].display_name
                && state.players[i].connected == room.seats[player].connected
                && state.players[i].submitted == room.seats[player].submitted,
{
}

/// A player who handed in nothing is listed with a program of no blocks, no commands and no time.
pub proof fn law_no_attempt_has_no_metrics(row: MatchResultRow, seat: SeatView)
    requires
        reports(row, seat),
        seat.best is None,
    ensures
        row.metrics.source_block_count == 0,
        row.metrics.executed_command_count == 0,
        row.metrics.estimated_duration_ms.bits == 0,
{
}

}
