//! Where replayed scores wait to be picked up.
//!
//! Scoring an answer is synchronous and cannot fail, while a response has to be
//! replayed first. So the flow inverts: the outcome is recorded here before the
//! answer is submitted.

use crate::mastery::{remap_for_arona, remapped};
use crate::number::Real;
use crate::table::TextMap;
use crate::text::{decimal_text, push_decimal};
use vstd::prelude::*;

verus! {

/// Replayed scores by submission, and how many lookups found none.
pub struct OutcomeStore {
    scores: TextMap<Real>,
    misses: u64,
}

/// A store, by value.
pub struct OutcomesView {
    /// Raw normalized score of each submission.
    pub scores: Map<Seq<char>, Real>,
    /// Lookups that found nothing.
    pub misses: u64,
}

impl View for OutcomeStore {
    type V = OutcomesView;

    closed spec fn view(&self) -> OutcomesView {
        OutcomesView { scores: self.scores@, misses: self.misses }
    }
}

impl OutcomeStore {
    /// Create an empty store.
    pub fn new() -> (r: Self)
        ensures
            r@ == (OutcomesView { scores: Map::empty(), misses: 0 }),
    {
        OutcomeStore { scores: TextMap::new(), misses: 0 }
    }

    /// Record a replayed outcome: the normalized final score, held to the range
    /// from zero to one.
    pub fn record(&mut self, submission_id: &str, raw_score: Real)
        ensures
            final(self)@ == (OutcomesView {
                scores: old(self)@.scores.insert(
                    submission_id@,
                    raw_score.clamped(Real { bits: 0 }, Real { bits: 0x3ff0_0000_0000_0000 }),
                ),
                ..old(self)@
            }),
    {
        let score = raw_score.clamp(Real::zero(), Real::one());
        self.scores.insert(submission_id.to_owned(), score);
    }

    /// Look up a recorded outcome.
    pub fn get(&self, submission_id: &str) -> (r: Option<Real>)
        ensures
            r == if self@.scores.contains_key(submission_id@) {
                Some(self@.scores[submission_id@])
            } else {
                None
            },
    {
        match self.scores.get(submission_id) {
            Some(score) => Some(*score),
            None => None,
        }
    }

    /// Forget a recorded outcome.
    pub fn remove(&mut self, submission_id: &str) -> (r: Option<Real>)
        ensures
            r == if old(self)@.scores.contains_key(submission_id@) {
                Some(old(self)@.scores[submission_id@])
            } else {
                None
            },
            final(self)@ == (OutcomesView {
                scores: old(self)@.scores.remove(submission_id@),
                ..old(self)@
            }),
    {
        self.scores.remove(submission_id)
    }

    /// How many score lookups found nothing. A healthy system keeps this at
    /// zero, and it is worth alerting on.
    pub fn misses(&self) -> (r: u64)
        ensures
            r == self@.misses,
    {
        self.misses
    }

    /// The outcome an answer is scored by. One that was never recorded is
    /// counted, so that it cannot pass silently for a score of zero.
    pub fn take_score(&mut self, submission_id: &str) -> (r: Option<Real>)
        ensures
            r == if old(self)@.scores.contains_key(submission_id@) {
                Some(old(self)@.scores[submission_id@])
            } else {
                None
            },
            final(self)@.scores == old(self)@.scores,
            final(self)@.misses == if r is Some {
                old(self)@.misses
            } else {
                ((old(self)@.misses + 1) % 0x1_0000_0000_0000_0000) as u64
            },
    {
        let score = self.get(submission_id);
        if score.is_none() {
            self.misses = self.misses.wrapping_add(1);
        }
        score
    }

    /// What an answer scores with the engine: its outcome with the item's threshold
    /// moved to where the engine decides, and nothing without an outcome.
    pub fn score(&mut self, submission_id: &str, mastery_threshold: Real) -> (r: Real)
        ensures
            r == if old(self)@.scores.contains_key(submission_id@) {
                remapped(old(self)@.scores[submission_id@], mastery_threshold)
            } else {
                Real { bits: 0 }
            },
            final(self)@.scores == old(self)@.scores,
            final(self)@.misses == if old(self)@.scores.contains_key(submission_id@) {
                old(self)@.misses
            } else {
                ((old(self)@.misses + 1) % 0x1_0000_0000_0000_0000) as u64
            },
    {
        match self.take_score(submission_id) {
            Some(raw) => remap_for_arona(raw, mastery_threshold),
            None => Real::zero(),
        }
    }
}

/// What an item is shown as to the engine that schedules it: a handle, not
/// display text.
pub fn handle_text(item_id: &str, version: u32) -> (r: String)
    ensures
        r@ == item_id@.push('@') + decimal_text(version as nat),
{
    let mut out: String = item_id.to_owned();
    out.push('@');
    push_decimal(&mut out, version as u64);
    out
}

/// What the learner is told about an answered item.
pub fn feedback_text(item_id: &str, mastered: bool) -> (r: String)
    ensures
        r@ == if mastered {
            "Mastered "@ + item_id@ + "."@
        } else {
            "Not yet mastered: "@ + item_id@ + "."@
        },
{
    let mut out: String = if mastered {
        "Mastered ".to_owned()
    } else {
        "Not yet mastered: ".to_owned()
    };
    out.append(item_id);
    out.append(".");
    out
}

}
