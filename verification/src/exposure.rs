//! Item exposure control.
//!
//! Always serving the single most informative item would hand the same handful
//! of challenges to everyone near a given ability, burning the bank and making
//! sessions predictable.

use crate::number::Real;
use crate::rounding::{
    law_nothing_of_something_is_zero, law_shares_keep_order, SIGNIFICAND_BOUND,
};
use crate::table::TextMap;
use vstd::prelude::*;

verus! {

/// Administrations observed before a cap applies, unless told otherwise.
pub const DEFAULT_WARMUP: u64 = 20;

/// The encoding of one.
pub const ONE: u64 = 0x3ff0_0000_0000_0000;

/// Caps how often any one item may be served.
pub struct ExposureController {
    max_rate: Real,
    /// Below this many observations the rate estimate is meaningless, so the cap
    /// is not enforced: otherwise the first item served would lock itself out.
    warmup: u64,
    total: u64,
    counts: TextMap<u64>,
}

/// An exposure policy and what it has observed, by value.
pub struct ExposureView {
    /// Largest share of all administrations an item may have.
    pub max_rate: Real,
    /// Observations required before the cap applies.
    pub warmup: nat,
    /// Administrations observed.
    pub total: nat,
    /// Administrations observed of each item.
    pub counts: Map<Seq<char>, u64>,
}

impl ExposureView {
    /// How often an item was served.
    pub open spec fn count(self, item: Seq<char>) -> nat {
        if self.counts.contains_key(item) {
            self.counts[item] as nat
        } else {
            0
        }
    }

    /// Observed administration rate of an item.
    pub open spec fn observed(self, item: Seq<char>) -> Real {
        if self.total == 0 {
            Real { bits: 0 }
        } else {
            Real::from_count(self.count(item)).over(Real::from_count(self.total))
        }
    }

    /// Whether an item may be served now.
    pub open spec fn allows(self, item: Seq<char>) -> bool {
        ||| self.total < self.warmup
        ||| (Real { bits: ONE }).at_most(self.max_rate)
        ||| self.observed(item).at_most(self.max_rate)
    }

    /// The policy once an item was served.
    pub open spec fn recorded(self, item: Seq<char>) -> ExposureView {
        ExposureView {
            total: self.total + 1,
            counts: self.counts.insert(item, (self.count(item) + 1) as u64),
            ..self
        }
    }
}

impl View for ExposureController {
    type V = ExposureView;

    closed spec fn view(&self) -> ExposureView {
        ExposureView {
            max_rate: self.max_rate,
            warmup: self.warmup as nat,
            total: self.total as nat,
            counts: self.counts@,
        }
    }
}

impl Clone for ExposureController {
    fn clone(&self) -> (r: Self)
        ensures
            r@ == self@,
    {
        proof {
            use_type_invariant(self);
        }
        ExposureController {
            max_rate: self.max_rate,
            warmup: self.warmup,
            total: self.total,
            counts: self.counts.clone(),
        }
    }
}

impl Default for ExposureController {
    fn default() -> (r: Self)
        ensures
            r@.max_rate == (Real { bits: 0x3fc9_9999_9999_999a }),
            r@.warmup == DEFAULT_WARMUP,
            r@.total == 0,
            r@.counts == Map::<Seq<char>, u64>::empty(),
    {
        Self::new(Real { bits: 0x3fc9_9999_9999_999a })
    }
}

impl ExposureController {
    #[verifier::type_invariant]
    spec fn wf(self) -> bool {
        forall|item: Seq<char>| #[trigger]
            self.counts@.contains_key(item) ==> self.counts@[item] <= self.total
    }

    /// Cap each item at `max_rate` of all administrations, held to the range from
    /// zero to one.
    pub fn new(max_rate: Real) -> (r: Self)
        ensures
            r@ == (ExposureView {
                max_rate: max_rate.clamped(Real { bits: 0 }, Real { bits: ONE }),
                warmup: DEFAULT_WARMUP as nat,
                total: 0,
                counts: Map::empty(),
            }),
    {
        ExposureController {
            max_rate: max_rate.clamp(Real::zero(), Real::one()),
            warmup: DEFAULT_WARMUP,
            total: 0,
            counts: TextMap::new(),
        }
    }

    /// Disable the cap entirely.
    pub fn unlimited() -> (r: Self)
        ensures
            r@.max_rate == (Real { bits: ONE }),
            r@.warmup == 0,
            r@.total == 0,
            r@.counts == Map::<Seq<char>, u64>::empty(),
    {
        ExposureController { max_rate: Real::one(), warmup: 0, total: 0, counts: TextMap::new() }
    }

    /// Observations required before the cap applies.
    pub fn with_warmup(self, warmup: u64) -> (r: Self)
        ensures
            r@ == (ExposureView { warmup: warmup as nat, ..self@ }),
    {
        proof {
            use_type_invariant(&self);
        }
        ExposureController {
            max_rate: self.max_rate,
            warmup,
            total: self.total,
            counts: self.counts,
        }
    }

    /// Whether the item may be served now.
    pub fn permits(&self, item_id: &str) -> (r: bool)
        ensures
            r == self@.allows(item_id@),
    {
        if self.total < self.warmup || Real::one().le(self.max_rate) {
            return true;
        }
        self.rate(item_id).le(self.max_rate)
    }

    /// Observed administrations of an item.
    fn served(&self, item_id: &str) -> (r: u64)
        ensures
            r == self@.count(item_id@),
            r <= self@.total,
    {
        proof {
            use_type_invariant(self);
        }
        match self.counts.get(item_id) {
            Some(count) => *count,
            None => 0,
        }
    }

    /// Observed administration rate for an item.
    pub fn rate(&self, item_id: &str) -> (r: Real)
        ensures
            r == self@.observed(item_id@),
    {
        if self.total == 0 {
            return Real::zero();
        }
        Real::of_count(self.served(item_id)).divide(Real::of_count(self.total))
    }

    /// Record that an item was served.
    pub fn record(&mut self, item_id: &str)
        requires
            old(self)@.total < u64::MAX,
        ensures
            final(self)@ == old(self)@.recorded(item_id@),
            final(self)@.count(item_id@) == old(self)@.count(item_id@) + 1,
    {
        let count: u64 = self.served(item_id);
        let total: u64 = self.total;
        proof {
            use_type_invariant(&*self);
        }
        let ghost before = self.counts@;
        let mut counts: TextMap<u64> = TextMap::new();
        std::mem::swap(&mut counts, &mut self.counts);
        counts.insert(item_id.to_owned(), count + 1);
        self.total = total + 1;
        self.counts = counts;
    }

    /// Total administrations observed.
    pub fn total(&self) -> (r: u64)
        ensures
            r == self@.total,
    {
        self.total
    }
}

/// No cap bites before enough was observed.
pub proof fn law_warmup_lets_everything_through(exposure: ExposureView, item: Seq<char>)
    requires
        exposure.total < exposure.warmup,
    ensures
        exposure.allows(item),
{
}

/// An item that was never served is never withheld, whatever the cap is.
pub proof fn law_unseen_items_are_permitted(exposure: ExposureView, item: Seq<char>)
    requires
        exposure.count(item) == 0,
        (Real { bits: 0 }).at_most(exposure.max_rate),
    ensures
        exposure.allows(item),
{
    if exposure.total > 0 {
        law_nothing_of_something_is_zero(exposure.total);
    }
}

/// A cap at the whole withholds nothing, whatever was observed.
pub proof fn law_an_unlimited_policy_withholds_nothing(
    exposure: ExposureView,
    item: Seq<char>,
    other: Seq<char>,
)
    requires
        (Real { bits: ONE }).at_most(exposure.max_rate),
    ensures
        exposure.recorded(item).allows(other),
{
}

/// Serving an item counts for it and for the total, and for no other item.
pub proof fn law_serving_counts_once(exposure: ExposureView, item: Seq<char>, other: Seq<char>)
    requires
        exposure.count(item) < u64::MAX,
        other != item,
    ensures
        exposure.recorded(item).count(item) == exposure.count(item) + 1,
        exposure.recorded(item).count(other) == exposure.count(other),
        exposure.recorded(item).total == exposure.total + 1,
        exposure.recorded(item).max_rate == exposure.max_rate,
        exposure.recorded(item).warmup == exposure.warmup,
{
}

/// Past the warmup, an item served to everyone is withheld under any cap below one.
pub proof fn law_an_item_served_to_everyone_is_withheld(exposure: ExposureView, item: Seq<char>)
    requires
        0 < exposure.total <= SIGNIFICAND_BOUND,
        exposure.warmup <= exposure.total,
        exposure.count(item) == exposure.total,
        exposure.max_rate.below(Real { bits: 0x3ff0_0000_0000_0000 }),
    ensures
        !exposure.allows(item),
{
    law_shares_keep_order(exposure.total, exposure.total, exposure.total);
}

/// Where an item may be served, so may one that was served no more often.
pub proof fn law_rarer_items_are_not_withheld_first(
    exposure: ExposureView,
    item: Seq<char>,
    rarer: Seq<char>,
)
    requires
        exposure.allows(item),
        exposure.count(rarer) <= exposure.count(item) <= exposure.total <= SIGNIFICAND_BOUND,
    ensures
        exposure.allows(rarer),
{
    if exposure.total > 0 {
        law_shares_keep_order(exposure.count(rarer), exposure.count(item), exposure.total);
    }
}

/// A stricter cap withholds whatever a looser one does.
pub proof fn law_stricter_caps_withhold_more(
    exposure: ExposureView,
    stricter: ExposureView,
    item: Seq<char>,
)
    requires
        stricter == (ExposureView { max_rate: stricter.max_rate, ..exposure }),
        stricter.max_rate.at_most(exposure.max_rate),
        stricter.allows(item),
    ensures
        exposure.allows(item),
{
}

/// What a policy starts from, unless told otherwise: twenty items before it withholds any.
pub proof fn law_the_usual_warmup()
    ensures
        DEFAULT_WARMUP == 20,
        ONE == 0x3ff0_0000_0000_0000,
{
}

}
