//! A dynamic, exposure-controlled question bank.
//!
//! The bank decides which items are eligible, weighs and ranks them, and records what
//! it serves. The information of an item at an ability it is told. What it cannot do on
//! its own is handed back as a [`Step`]: drawing from a shortlist by weight, and
//! synthesising an item where the pool has none.

use crate::blueprint::{served_under, Blueprint, BlueprintView};
use crate::exposure::{ExposureController, ExposureView, DEFAULT_WARMUP};
use crate::generator::GeneratedItem;
use crate::item::{
    items_view, law_any_dimension_matches, law_the_order_of_dimensions_does_not_matter,
    spelled_like, tagged, BankItem, CatalogSnapshot, ItemView,
};
use crate::meta::{CalibrationState, SkillDimension};
use crate::number::Real;
use crate::rounding::{
    law_finite_numbers_add_up, law_inverses_turn_order, law_numbers_are_not_rounded,
    law_sums_keep_order,
};
use crate::table::TextMap;
use rand::rngs::StdRng;
use rand::{Rng, SeedableRng};
use vstd::prelude::*;

verus! {

/// How many of the best items a selection samples from, unless told otherwise.
pub const DEFAULT_RANDOMESQUE_K: usize = 5;

/// Parameter vectors tried when generating an item, unless told otherwise.
pub const DEFAULT_GENERATION_ATTEMPTS: u32 = 24;

/// How much more an item weighs that matches the learner's field: 1.3 times.
pub const FIELD_BOOST: u64 = 0x3ff4_cccc_cccc_cccd;

/// `rand::rngs::StdRng`, a seeded generator of random numbers, carried as it is.
#[verifier::external_type_specification]
#[verifier::external_body]
pub struct ExStdRng(rand::rngs::StdRng);

/// The generator that `StdRng::seed_from_u64` makes of a seed: a function of the seed
/// alone.
pub uninterp spec fn seeded_generator(seed: u64) -> StdRng;

/// The 64-bit word that a generator draws next.
pub uninterp spec fn next_word(rng: StdRng) -> u64;

/// The generator once it has drawn a 64-bit word.
pub uninterp spec fn after_word(rng: StdRng) -> StdRng;

/// Calls `StdRng::seed_from_u64`, which expands the seed by fixed arithmetic: the same
/// seed gives the same generator.
#[verifier::external_body]
fn seeded(seed: u64) -> (rng: StdRng)
    ensures
        rng == seeded_generator(seed),
{
    StdRng::seed_from_u64(seed)
}

/// Calls `Rng::gen` for a 64-bit word. The word, and the generator that is left, are
/// functions of the generator before.
#[verifier::external_body]
fn draw_word(rng: &mut StdRng) -> (word: u64)
    ensures
        word == next_word(*old(rng)),
        *final(rng) == after_word(*old(rng)),
{
    rng.gen::<u64>()
}

/// Calls `Rng::gen_range` below a bound, which panics when there is no number
/// below it. Which of the numbers below is drawn is left open: it depends on how wide
/// a `usize` is on the machine.
#[verifier::external_body]
fn draw_below(rng: &mut StdRng, bound: usize) -> (index: usize)
    requires
        bound > 0,
    ensures
        index < bound,
{
    rng.gen_range(0..bound)
}

/// An item that was handed out.
#[derive(Debug, PartialEq, Eq)]
pub struct ServedItem {
    /// Which item.
    pub id: String,
    /// Which version: pinned, so later recalibration cannot move this response.
    pub version: u32,
}

impl Clone for ServedItem {
    fn clone(&self) -> (r: Self)
        ensures
            r == *self,
    {
        ServedItem { id: self.id.clone(), version: self.version }
    }
}

/// Items that were handed out, by value.
pub open spec fn served_view(served: Seq<ServedItem>) -> Seq<(Seq<char>, u32)> {
    Seq::new(served.len(), |i: int| (served[i].id@, served[i].version))
}

/// What a selection is asked for.
pub struct Query {
    /// The current estimate of ability.
    pub ability: Option<Real>,
    /// The difficulty that is aimed at, when it is not the ability.
    pub target_difficulty: Option<Real>,
    /// Set where the most informative item is asked for: items less discriminating than
    /// this are skipped.
    pub min_discrimination: Option<Real>,
    /// Set where the item of the nearest difficulty is asked for: items further off are
    /// skipped.
    pub range: Option<Real>,
    /// The learner's field.
    pub field: Option<String>,
    /// How often items were served under each tag.
    pub used_types: TextMap<u32>,
}

impl Query {
    /// The ability that items are measured at.
    pub open spec fn theta(self) -> Real {
        match self.ability {
            Some(theta) => theta,
            None => Real { bits: 0 },
        }
    }

    /// The difficulty that is aimed at.
    pub open spec fn target(self) -> Real {
        match self.target_difficulty {
            Some(difficulty) => difficulty,
            None => self.theta(),
        }
    }

    /// The discrimination that an item needs.
    pub open spec fn least(self) -> Real {
        match self.min_discrimination {
            Some(least) => least,
            None => Real { bits: 0 },
        }
    }

    /// The ability that items are measured at: the usual one where none is given.
    pub fn ability(&self) -> (r: Real)
        ensures
            r == self.theta(),
    {
        match self.ability {
            Some(theta) => theta,
            None => Real::zero(),
        }
    }

    /// The difficulty that is aimed at: the one asked for, or else the ability.
    pub fn target_difficulty(&self) -> (r: Real)
        ensures
            r == self.target(),
    {
        match self.target_difficulty {
            Some(difficulty) => difficulty,
            None => self.ability(),
        }
    }

    fn min_discrimination(&self) -> (r: Real)
        ensures
            r == self.least(),
    {
        match self.min_discrimination {
            Some(least) => least,
            None => Real::zero(),
        }
    }
}

/// What an item weighs in a selection, given its information at the ability; none
/// leaves it out.
///
/// A selector that asks for the nearest difficulty alone gets the band it asked for.
/// Otherwise items weigh what they inform, more in the learner's field.
pub open spec fn weighed(item: ItemView, query: Query, information: Real) -> Option<Real> {
    let one = Real { bits: 0x3ff0_0000_0000_0000 };
    match query.range {
        Some(range) if query.min_discrimination is None => {
            let distance = item.meta.irt.difficulty.minus(query.target()).absolute();
            if range.below(distance) {
                None
            } else {
                Some(one.over(one.plus(distance)))
            }
        },
        _ => Some(
            if query.field matches Some(field) && tagged(item.meta.dimensions, field@) {
                information.times(Real { bits: FIELD_BOOST })
            } else {
                information
            },
        ),
    }
}

/// A weight that can be ranked: what is no number ranks, as it is drawn, as nothing.
pub open spec fn rankable(weight: Real) -> Real {
    if weight.not_a_number() {
        Real { bits: 0 }
    } else {
        weight
    }
}

/// What the items of a pool weigh in a selection.
pub open spec fn weights_of(
    catalog: Seq<ItemView>,
    query: Query,
    information: Seq<Real>,
) -> Seq<Option<Real>> {
    Seq::new(
        catalog.len(),
        |i: int|
            match weighed(catalog[i], query, information[i]) {
                Some(weight) => Some(rankable(weight)),
                None => None,
            },
    )
}

/// What an item weighs in a selection.
fn weigh(item: &BankItem, query: &Query, information: Real) -> (r: Option<Real>)
    ensures
        r == weighed(item@, *query, information),
{
    if query.min_discrimination.is_none() {
        if let Some(range) = query.range {
            let distance = item.meta.irt.difficulty.subtract(query.target_difficulty()).abs();
            if range.lt(distance) {
                return None;
            }
            return Some(Real::one().divide(Real::one().sum(distance)));
        }
    }
    if let Some(field) = &query.field {
        if item.matches_field(field.as_str()) {
            return Some(information.multiply(Real { bits: FIELD_BOOST }));
        }
    }
    Some(information)
}

/// What is to be done to answer a selection.
#[derive(Debug, PartialEq, Eq)]
pub enum Step {
    /// Nothing fits, and nothing may be synthesised.
    Exhausted,
    /// Nothing in the pool fits. Synthesise an item of about this difficulty from this
    /// seed, trying so many parameter vectors.
    Generate {
        /// Difficulty that is aimed at.
        difficulty: Real,
        /// Seed of the search.
        seed: u64,
        /// Parameter vectors to try.
        attempts: u32,
    },
    /// This item of the pool was served.
    Served(usize),
    /// Draw one of these items by its weight.
    Draw(Vec<(usize, Real)>),
}

/// A bank, by value.
#[verifier::ext_equal]
pub struct BankView {
    /// The pool.
    pub catalog: Seq<ItemView>,
    /// What was handed out, in order.
    pub served: Seq<(Seq<char>, u32)>,
    /// Identities of what was handed out.
    pub used: Set<Seq<char>>,
    /// Content blueprint.
    pub blueprint: BlueprintView,
    /// Exposure policy.
    pub exposure: ExposureView,
    /// How many of the best items a selection samples from.
    pub randomesque_k: nat,
    /// Whether items without calibration are withheld.
    pub measurement_only: bool,
    /// Whether items may be synthesised.
    pub generates: bool,
    /// Parameter vectors tried when one is.
    pub attempts: u32,
    /// Items synthesised and not yet taken.
    pub generated: Seq<GeneratedItem>,
    /// The generator of random numbers that it draws from.
    pub randomness: StdRng,
}

impl BankView {
    /// Whether an item may be served.
    pub open spec fn eligible(
        self,
        item: ItemView,
        min_discrimination: Real,
        used_types: Map<Seq<char>, u32>,
        total: nat,
    ) -> bool {
        &&& !self.used.contains(item.id)
        &&& item.meta.calibration.live()
        &&& self.measurement_only ==> item.meta.calibration.measures()
        &&& !item.meta.irt.discrimination.below(min_discrimination)
        &&& self.blueprint.permits(item.meta.dimensions, used_types, total)
        &&& self.exposure.allows(item.id)
    }

    /// Whether an item of the pool is a candidate of a selection: it may be
    /// served, and it has a weight.
    pub open spec fn candidate(self, query: Query, weights: Seq<Option<Real>>, i: int) -> bool {
        &&& 0 <= i < self.catalog.len()
        &&& 0 <= i < weights.len()
        &&& weights[i] is Some
        &&& self.eligible(
            self.catalog[i],
            query.least(),
            query.used_types@,
            served_under(query.used_types@, query.used_types.keys()),
        )
    }

    /// The bank once an item of the pool was handed out.
    pub open spec fn serving(self, i: int) -> BankView {
        BankView {
            served: self.served.push((self.catalog[i].id, self.catalog[i].meta.version)),
            used: self.used.insert(self.catalog[i].id),
            exposure: self.exposure.recorded(self.catalog[i].id),
            ..self
        }
    }
}

/// Whether one candidate ranks before another: a larger weight first, and of
/// equal ones the item that comes first in the pool.
pub open spec fn ranks_before(a: (usize, Real), b: (usize, Real)) -> bool {
    b.1.below(a.1) || (a.1.equals(b.1) && a.0 < b.0)
}

/// Whether a list holds the best candidates of the first `n` items, best first:
/// each of them, or as many as fit, none of them behind one that is left out.
pub open spec fn is_shortlist(
    list: Seq<(usize, Real)>,
    bank: BankView,
    query: Query,
    weights: Seq<Option<Real>>,
    n: int,
) -> bool {
    &&& list.len() <= bank.randomesque_k
    &&& forall|p: int| #![trigger list[p]]
        0 <= p < list.len() ==> list[p].0 < n && bank.candidate(query, weights, list[p].0 as int)
            && list[p].1 == weights[list[p].0 as int]->0
    &&& forall|p: int, q: int|
        0 <= p < q < list.len() ==> ranks_before(#[trigger] list[p], #[trigger] list[q])
    &&& forall|i: int|
        #![trigger bank.candidate(query, weights, i)]
        0 <= i < n && bank.candidate(query, weights, i) ==> {
            ||| listed(list, i)
            ||| list.len() == bank.randomesque_k && forall|p: int|
                0 <= p < list.len() ==> ranks_before(#[trigger] list[p], (i as usize, weights[i]->0))
        }
}

/// Whether an item is on a list.
pub open spec fn listed(list: Seq<(usize, Real)>, i: int) -> bool {
    exists|p: int| 0 <= p < list.len() && (#[trigger] list[p]).0 == i
}

/// The shortlist that a step was taken on.
pub open spec fn shortlist_of(step: Step, weights: Seq<Option<Real>>) -> Seq<(usize, Real)> {
    match step {
        Step::Exhausted => Seq::empty(),
        Step::Generate { .. } => Seq::empty(),
        Step::Served(index) => seq![(index, weights[index as int]->0)],
        Step::Draw(list) => list@,
    }
}

/// What a selection does: it takes the next step on the shortlist of the bank. The only
/// item on it is served; several are handed back to be drawn from; without any the
/// bank is exhausted, unless it may ask for an item, from the seed it draws next.
pub open spec fn selects(
    before: BankView,
    after: BankView,
    query: Query,
    weights: Seq<Option<Real>>,
    r: Step,
) -> bool {
    &&& is_shortlist(
        shortlist_of(r, weights),
        before,
        query,
        weights,
        before.catalog.len() as int,
    )
    &&& match r {
        Step::Exhausted => (forall|i: int| !before.candidate(query, weights, i)) && (
        before.measurement_only || !before.generates) && after == before,
        Step::Generate { difficulty, seed, attempts } => (forall|i: int|
            !before.candidate(query, weights, i)) && !before.measurement_only && before.generates
            && difficulty == query.target() && attempts == before.attempts && seed == next_word(
            before.randomness,
        ) && after == (BankView { randomness: after_word(before.randomness), ..before }),
        Step::Served(index) => index < weights.len() && after == before.serving(index as int),
        Step::Draw(list) => list@.len() > 1 && after == before,
    }
}

/// Whether two steps are the same one.
pub open spec fn same_step(a: Step, b: Step) -> bool {
    match (a, b) {
        (Step::Draw(one), Step::Draw(other)) => one@ == other@,
        _ => a == b,
    }
}

proof fn lemma_a_shortlist_starts_with_the_best(
    list: Seq<(usize, Real)>,
    other: Seq<(usize, Real)>,
    bank: BankView,
    query: Query,
    weights: Seq<Option<Real>>,
    p: int,
)
    requires
        is_shortlist(list, bank, query, weights, bank.catalog.len() as int),
        is_shortlist(other, bank, query, weights, bank.catalog.len() as int),
        weights.len() == bank.catalog.len(),
        forall|i: int|
            0 <= i < weights.len() && weights[i] is Some ==> !(
            #[trigger] weights[i]->0).not_a_number(),
        0 <= p < list.len(),
        p <= other.len(),
        forall|q: int| 0 <= q < p ==> #[trigger] list[q] == other[q],
    ensures
        p < other.len(),
        list[p] == other[p] || ranks_before(other[p], list[p]),
{
    let x = list[p];
    assert(bank.candidate(query, weights, x.0 as int));
    if listed(other, x.0 as int) {
        let q = choose|q: int| 0 <= q < other.len() && (#[trigger] other[q]).0 == x.0;
        assert(other[q] == x);
        if q < p {
            assert(list[q] == other[q]);
            assert(ranks_before(list[q], list[p]));
        } else if q > p {
            assert(ranks_before(other[p], other[q]));
        }
    } else {
        assert(other.len() == bank.randomesque_k);
        assert(p < other.len());
        assert(ranks_before(other[p], (x.0, weights[x.0 as int]->0)));
    }
}

proof fn lemma_one_shortlist(
    list: Seq<(usize, Real)>,
    other: Seq<(usize, Real)>,
    bank: BankView,
    query: Query,
    weights: Seq<Option<Real>>,
    p: int,
)
    requires
        is_shortlist(list, bank, query, weights, bank.catalog.len() as int),
        is_shortlist(other, bank, query, weights, bank.catalog.len() as int),
        weights.len() == bank.catalog.len(),
        forall|i: int|
            0 <= i < weights.len() && weights[i] is Some ==> !(
            #[trigger] weights[i]->0).not_a_number(),
        0 <= p <= list.len(),
        p <= other.len(),
        forall|q: int| 0 <= q < p ==> #[trigger] list[q] == other[q],
    ensures
        list == other,
    decreases list.len() - p,
{
    if p < list.len() {
        lemma_a_shortlist_starts_with_the_best(list, other, bank, query, weights, p);
        lemma_a_shortlist_starts_with_the_best(other, list, bank, query, weights, p);
        assert(list[p] == other[p]);
        lemma_one_shortlist(list, other, bank, query, weights, p + 1);
    } else {
        if p < other.len() {
            lemma_a_shortlist_starts_with_the_best(other, list, bank, query, weights, p);
        }
        assert(list =~= other);
    }
}

/// There is one shortlist: which items are the best, and in what order, leaves nothing
/// open.
pub proof fn law_there_is_one_shortlist(
    list: Seq<(usize, Real)>,
    other: Seq<(usize, Real)>,
    bank: BankView,
    query: Query,
    weights: Seq<Option<Real>>,
)
    requires
        is_shortlist(list, bank, query, weights, bank.catalog.len() as int),
        is_shortlist(other, bank, query, weights, bank.catalog.len() as int),
        weights.len() == bank.catalog.len(),
        forall|i: int|
            0 <= i < weights.len() && weights[i] is Some ==> !(
            #[trigger] weights[i]->0).not_a_number(),
    ensures
        list == other,
{
    lemma_one_shortlist(list, other, bank, query, weights, 0);
}

/// A selection can be replayed: a bank in the same state, asked the same, takes the same
/// step and is left in the same state, down to what it will draw next.
pub proof fn law_a_selection_is_replayed(
    before: BankView,
    query: Query,
    weights: Seq<Option<Real>>,
    first: Step,
    after_first: BankView,
    second: Step,
    after_second: BankView,
)
    requires
        selects(before, after_first, query, weights, first),
        selects(before, after_second, query, weights, second),
        weights.len() == before.catalog.len(),
        forall|i: int|
            0 <= i < weights.len() && weights[i] is Some ==> !(
            #[trigger] weights[i]->0).not_a_number(),
    ensures
        same_step(first, second),
        after_first == after_second,
{
    law_there_is_one_shortlist(
        shortlist_of(first, weights),
        shortlist_of(second, weights),
        before,
        query,
        weights,
    );
    let list = shortlist_of(first, weights);
    if list.len() == 1 {
        assert(list[0].0 == list[0].0);
        assert(shortlist_of(second, weights)[0] == list[0]);
    }
}

/// The words that a generator draws, one after the other.
pub open spec fn words_drawn(rng: StdRng, count: nat) -> Seq<u64>
    decreases count,
{
    if count == 0 {
        Seq::empty()
    } else {
        seq![next_word(rng)] + words_drawn(after_word(rng), (count - 1) as nat)
    }
}

/// The same seed makes the same draws: banks over one pool from one seed are in the same
/// state, and every item they ask for is searched from the same seed.
pub proof fn law_the_same_seed_makes_the_same_draws(
    pool: Seq<ItemView>,
    seed: u64,
    first: BankView,
    second: BankView,
    count: nat,
)
    requires
        first == BankView::fresh(pool, seed),
        second == BankView::fresh(pool, seed),
    ensures
        first == second,
        words_drawn(first.randomness, count) == words_drawn(second.randomness, count),
        words_drawn(first.randomness, count) == words_drawn(seeded_generator(seed), count),
{
}

/// Add a candidate to a shortlist of the items before it.
fn consider(
    list: &mut Vec<(usize, Real)>,
    entry: (usize, Real),
    k: usize,
    bank: Ghost<BankView>,
    query: Ghost<Query>,
    weights: Ghost<Seq<Option<Real>>>,
)
    requires
        is_shortlist(old(list)@, bank@, query@, weights@, entry.0 as int),
        bank@.candidate(query@, weights@, entry.0 as int),
        entry.1 == weights@[entry.0 as int]->0,
        k == bank@.randomesque_k,
        k > 0,
        weights@.len() <= usize::MAX,
        forall|i: int|
            0 <= i < weights@.len() && weights@[i] is Some ==> !(
            #[trigger] weights@[i]->0).not_a_number(),
    ensures
        is_shortlist(final(list)@, bank@, query@, weights@, entry.0 + 1),
        final(list)@.len() > 0,
{
    let ghost before = list@;
    let mut at: usize = 0;
    while at < list.len() && !list[at].1.lt(entry.1)
        invariant
            list@ == before,
            at <= before.len(),
            forall|p: int| 0 <= p < at ==> !(#[trigger] before[p]).1.below(entry.1),
        decreases before.len() - at,
    {
        at = at + 1;
    }
    proof {
        assert forall|p: int| 0 <= p < at implies ranks_before(#[trigger] before[p], entry) by {
            assert(!weights@[before[p].0 as int]->0.not_a_number());
        }
        assert forall|p: int| at <= p < before.len() implies ranks_before(entry, #[trigger] before[p]) by {
            if p > at {
                assert(ranks_before(before[at as int], before[p]));
            }
        }
    }
    list.insert(at, entry);
    let ghost grown = before.insert(at as int, entry);
    assert(list@ =~= grown);
    proof {
        assert(grown[at as int] == entry);
        assert forall|p: int, q: int| 0 <= p < q < grown.len() implies ranks_before(
            #[trigger] grown[p],
            #[trigger] grown[q],
        ) by {
            let x = if p < at {
                p
            } else {
                p - 1
            };
            let y = if q < at {
                q
            } else {
                q - 1
            };
            if p != at {
                assert(grown[p] == before[x]);
            }
            if q != at {
                assert(grown[q] == before[y]);
            }
        }
        assert forall|p: int| #![trigger grown[p]] 0 <= p < grown.len() implies grown[p].0 < entry.0 + 1
            && bank@.candidate(query@, weights@, grown[p].0 as int) && grown[p].1
            == weights@[grown[p].0 as int]->0 by {
            if p < at {
                assert(grown[p] == before[p]);
            } else if p > at {
                assert(grown[p] == before[p - 1]);
            }
        }
        assert forall|i: int| 0 <= i < entry.0 && listed(before, i) implies listed(grown, i) by {
            let p = choose|p: int| 0 <= p < before.len() && (#[trigger] before[p]).0 == i;
            if p < at {
                assert(grown[p].0 == i);
            } else {
                assert(grown[p + 1].0 == i);
            }
        }
        assert(listed(grown, entry.0 as int));
    }
    if list.len() > k {
        list.pop();
        let ghost kept = list@;
        proof {
            assert(kept =~= grown.drop_last());
            let dropped = grown.last();
            assert forall|i: int|
                #![trigger bank@.candidate(query@, weights@, i)]
                0 <= i < entry.0 + 1 && bank@.candidate(query@, weights@, i) implies {
                ||| listed(kept, i)
                ||| kept.len() == bank@.randomesque_k && forall|p: int|
                    0 <= p < kept.len() ==> ranks_before(
                        #[trigger] kept[p],
                        (i as usize, weights@[i]->0),
                    )
            } by {
                if listed(grown, i) {
                    let p = choose|p: int| 0 <= p < grown.len() && (#[trigger] grown[p]).0 == i;
                    if p < kept.len() {
                        assert(kept[p].0 == i);
                    } else {
                        assert(dropped == (i as usize, weights@[i]->0));
                        assert forall|q: int| 0 <= q < kept.len() implies ranks_before(
                            #[trigger] kept[q],
                            dropped,
                        ) by {
                            assert(kept[q] == grown[q]);
                        }
                    }
                } else {
                    let other = (i as usize, weights@[i]->0);
                    assert(i < entry.0);
                    assert(!listed(before, i));
                    assert forall|q: int| 0 <= q < kept.len() implies ranks_before(
                        #[trigger] kept[q],
                        other,
                    ) by {
                        assert(kept[q] == grown[q]);
                        assert(before.len() == k);
                        if q < at {
                            assert(grown[q] == before[q]);
                        } else if q > at {
                            assert(grown[q] == before[q - 1]);
                        } else {
                            // The entry stands before the last of the former
                            // list, which stands before the other.
                            let last = before.len() - 1;
                            assert(ranks_before(entry, before[last]));
                            assert(ranks_before(before[last], other));
                        }
                    }
                }
            }
            assert forall|p: int, q: int| 0 <= p < q < kept.len() implies ranks_before(
                #[trigger] kept[p],
                #[trigger] kept[q],
            ) by {
                assert(kept[p] == grown[p] && kept[q] == grown[q]);
            }
            assert forall|p: int| #![trigger kept[p]] 0 <= p < kept.len() implies kept[p].0 < entry.0 + 1
                && bank@.candidate(query@, weights@, kept[p].0 as int) && kept[p].1
                == weights@[kept[p].0 as int]->0 by {
                assert(kept[p] == grown[p]);
            }
        }
    }
}

/// What the bank holds, in numbers.
#[derive(Clone, Copy, Debug, PartialEq, Eq)]
pub struct PoolStats {
    /// Items of the pool.
    pub total: usize,
    /// Items that were handed out.
    pub used: usize,
    /// Items that may be served at all.
    pub servable: usize,
    /// Those of them that were not handed out.
    pub available: usize,
    /// Least and greatest difficulty of those that may be served.
    pub difficulty_range: (Real, Real),
    /// Least and greatest discrimination of those that may be served.
    pub discrimination_range: (Real, Real),
    /// Average difficulty of those that may be served, and zero without any.
    pub average_difficulty: Real,
    /// Average discrimination of those that may be served, and zero without any.
    pub average_discrimination: Real,
}

/// The sum of a measure over the items that may be served, in the order of the pool.
pub open spec fn total_of(items: Seq<ItemView>, measure: spec_fn(ItemView) -> Real) -> Real
    decreases items.len(),
{
    if items.len() == 0 {
        Real { bits: 0 }
    } else {
        let before = total_of(items.drop_last(), measure);
        if items.last().meta.calibration.live() {
            before.plus(measure(items.last()))
        } else {
            before
        }
    }
}

/// The average of a measure over the items that may be served, and zero without any.
pub open spec fn average_of(items: Seq<ItemView>, measure: spec_fn(ItemView) -> Real) -> Real {
    if servable_count(items) == 0 {
        Real { bits: 0 }
    } else {
        total_of(items, measure).over(Real::from_count(servable_count(items)))
    }
}

/// How many of the first items of a pool may be served at all.
pub open spec fn servable_count(items: Seq<ItemView>) -> nat
    decreases items.len(),
{
    if items.len() == 0 {
        0
    } else {
        servable_count(items.drop_last()) + if items.last().meta.calibration.live() {
            1nat
        } else {
            0
        }
    }
}

/// How many of those were not handed out.
pub open spec fn available_count(items: Seq<ItemView>, used: Set<Seq<char>>) -> nat
    decreases items.len(),
{
    if items.len() == 0 {
        0
    } else {
        available_count(items.drop_last(), used) + if items.last().meta.calibration.live()
            && !used.contains(items.last().id) {
            1nat
        } else {
            0
        }
    }
}

/// Whether a range encloses a measure over items that may be served: none lies
/// outside, and its ends are measures of such items, or infinitely far apart.
/// What is no number does not widen it.
pub open spec fn encloses(
    range: (Real, Real),
    items: Seq<ItemView>,
    measure: spec_fn(ItemView) -> Real,
) -> bool {
    &&& forall|i: int|
        0 <= i < items.len() && (#[trigger] items[i]).meta.calibration.live() && !measure(
            items[i],
        ).not_a_number() ==> range.0.at_most(measure(items[i])) && measure(items[i]).at_most(range.1)
    &&& range.0 == (Real { bits: 0x7ff0_0000_0000_0000 }) || exists|i: int|
        0 <= i < items.len() && (#[trigger] items[i]).meta.calibration.live() && range.0 == measure(
            items[i],
        )
    &&& range.1 == (Real { bits: 0xfff0_0000_0000_0000 }) || exists|i: int|
        0 <= i < items.len() && (#[trigger] items[i]).meta.calibration.live() && range.1 == measure(
            items[i],
        )
    &&& !range.0.not_a_number() && !range.1.not_a_number()
}

/// The range of a measure over items that may be served. Without any, both ends
/// are zero.
pub open spec fn spans(range: (Real, Real), items: Seq<ItemView>, measure: spec_fn(ItemView) -> Real) -> bool {
    if servable_count(items) == 0 {
        range == (Real { bits: 0 }, Real { bits: 0 })
    } else {
        encloses(range, items, measure)
    }
}

/// The difficulty of an item.
pub open spec fn difficulty() -> spec_fn(ItemView) -> Real {
    |item: ItemView| item.meta.irt.difficulty
}

/// The discrimination of an item.
pub open spec fn discrimination() -> spec_fn(ItemView) -> Real {
    |item: ItemView| item.meta.irt.discrimination
}

/// A question bank over a mutable catalog.
pub struct HcrDynamicBank {
    catalog: CatalogSnapshot,
    blueprint: Blueprint,
    exposure: ExposureController,
    served: Vec<ServedItem>,
    used: TextMap<()>,
    rng: StdRng,
    randomesque_k: usize,
    measurement_only: bool,
    generates: bool,
    generation_attempts: u32,
    generated: Vec<GeneratedItem>,
}

impl View for HcrDynamicBank {
    type V = BankView;

    closed spec fn view(&self) -> BankView {
        BankView {
            catalog: self.catalog@,
            served: served_view(self.served@),
            used: self.used@.dom(),
            blueprint: self.blueprint@,
            exposure: self.exposure@,
            randomesque_k: self.randomesque_k as nat,
            measurement_only: self.measurement_only,
            generates: self.generates,
            attempts: self.generation_attempts,
            generated: self.generated@,
            randomness: self.rng,
        }
    }
}

impl BankView {
    /// A bank that was just built over a pool from a seed.
    pub open spec fn fresh(catalog: Seq<ItemView>, seed: u64) -> BankView {
        BankView {
            catalog,
            served: Seq::empty(),
            used: Set::empty(),
            blueprint: BlueprintView { targets: Seq::empty(), tolerance: Real { bits: 0 } },
            exposure: ExposureView {
                max_rate: Real { bits: 0x3fc9_9999_9999_999a },
                warmup: DEFAULT_WARMUP as nat,
                total: 0,
                counts: Map::empty(),
            },
            randomesque_k: DEFAULT_RANDOMESQUE_K as nat,
            measurement_only: true,
            generates: false,
            attempts: DEFAULT_GENERATION_ATTEMPTS,
            generated: Seq::empty(),
            randomness: seeded_generator(seed),
        }
    }
}

impl HcrDynamicBank {
    /// Whether a selection samples from at least one item.
    pub open spec fn wf(self) -> bool {
        self@.randomesque_k > 0
    }

    /// Build a bank over `catalog`, seeded so that a session can be replayed for
    /// audit.
    pub fn new(catalog: CatalogSnapshot, seed: u64) -> (r: Self)
        ensures
            r.wf(),
            r@ == BankView::fresh(catalog@, seed),
    {
        let r = HcrDynamicBank {
            catalog,
            blueprint: Blueprint::unconstrained(),
            exposure: ExposureController::default(),
            served: Vec::new(),
            used: TextMap::new(),
            rng: seeded(seed),
            randomesque_k: DEFAULT_RANDOMESQUE_K,
            measurement_only: true,
            generates: false,
            generation_attempts: DEFAULT_GENERATION_ATTEMPTS,
            generated: Vec::new(),
        };
        assert(r@.served =~= Seq::<(Seq<char>, u32)>::empty());
        assert(r@.used =~= Set::<Seq<char>>::empty());
        assert(r@.blueprint.targets =~= Seq::<(SkillDimension, Real)>::empty());
        r
    }

    /// Let the bank ask for an item when the pool has none that fits. It only
    /// does where items without calibration are permitted: a fresh item is
    /// provisional, and no measurement may rest on it.
    pub fn with_generator(self) -> (r: Self)
        ensures
            r@ == (BankView { generates: true, ..self@ }),
    {
        let mut bank = self;
        bank.generates = true;
        bank
    }

    /// Parameter vectors tried per generation request, at least one.
    pub fn with_generation_attempts(self, attempts: u32) -> (r: Self)
        ensures
            r@ == (BankView {
                attempts: if attempts == 0 {
                    1
                } else {
                    attempts
                },
                ..self@
            }),
    {
        let mut bank = self;
        bank.generation_attempts = if attempts == 0 {
            1
        } else {
            attempts
        };
        bank
    }

    /// Apply a content blueprint.
    pub fn with_blueprint(self, blueprint: Blueprint) -> (r: Self)
        ensures
            r@ == (BankView { blueprint: blueprint@, ..self@ }),
    {
        let mut bank = self;
        bank.blueprint = blueprint;
        bank
    }

    /// Apply an exposure policy.
    pub fn with_exposure(self, exposure: ExposureController) -> (r: Self)
        ensures
            r@ == (BankView { exposure: exposure@, ..self@ }),
    {
        let mut bank = self;
        bank.exposure = exposure;
        bank
    }

    /// How many of the best items a selection samples from, at least one.
    pub fn with_randomesque_k(self, k: usize) -> (r: Self)
        ensures
            r.wf(),
            r@ == (BankView {
                randomesque_k: if k == 0 {
                    1
                } else {
                    k as nat
                },
                ..self@
            }),
    {
        let mut bank = self;
        bank.randomesque_k = if k == 0 {
            1
        } else {
            k
        };
        bank
    }

    /// Permit items without calibration: right for competitive rounds, where
    /// everyone faces the same item, and wrong for measurement.
    pub fn allow_uncalibrated(self, allow: bool) -> (r: Self)
        ensures
            r@ == (BankView { measurement_only: !allow, ..self@ }),
    {
        let mut bank = self;
        bank.measurement_only = !allow;
        bank
    }

    /// Take the items generated so far, so that they can be persisted with their
    /// provenance.
    pub fn take_generated(&mut self) -> (r: Vec<GeneratedItem>)
        ensures
            r@ == old(self)@.generated,
            final(self)@ == (BankView { generated: Seq::empty(), ..old(self)@ }),
    {
        let mut taken: Vec<GeneratedItem> = Vec::new();
        std::mem::swap(&mut taken, &mut self.generated);
        assert(self@ =~= (BankView { generated: Seq::empty(), ..old(self)@ }));
        taken
    }

    /// Number of items generated and not taken.
    pub fn generated_count(&self) -> (r: usize)
        ensures
            r == self@.generated.len(),
    {
        self.generated.len()
    }

    /// Items served so far, in order.
    pub fn served(&self) -> (r: &Vec<ServedItem>)
        ensures
            served_view(r@) == self@.served,
    {
        &self.served
    }

    /// The item served under an index.
    pub fn item_at(&self, index: usize) -> (r: Option<&ServedItem>)
        ensures
            match r {
                Some(item) => index < self@.served.len() && (item.id@, item.version)
                    == self@.served[index as int],
                None => index >= self@.served.len(),
            },
    {
        if index < self.served.len() {
            Some(&self.served[index])
        } else {
            None
        }
    }

    /// Administrations the exposure policy has observed.
    pub fn administered(&self) -> (r: u64)
        ensures
            r == self@.exposure.total,
    {
        self.exposure.total()
    }

    /// Swap in a new catalog. What was served stays served: its versions are
    /// pinned.
    pub fn replace_catalog(&mut self, catalog: CatalogSnapshot)
        ensures
            final(self)@ == (BankView { catalog: catalog@, ..old(self)@ }),
    {
        self.catalog = catalog;
    }

    /// The pool, in order.
    pub fn items(&self) -> (r: &Vec<BankItem>)
        ensures
            items_view(r@) == self@.catalog,
    {
        self.catalog.items()
    }

    /// The generator of random numbers, for drawing by weight: the bank's own, so
    /// that its next draws follow on from those, and nothing else of it moves.
    pub fn rng(&mut self) -> (r: &mut StdRng)
        ensures
            *r == old(self)@.randomness,
            final(self)@ == (BankView { randomness: *final(r), ..old(self)@ }),
    {
        &mut self.rng
    }

    fn is_eligible(&self, index: usize, query: &Query) -> (r: bool)
        requires
            index < self@.catalog.len(),
            served_under(query.used_types@, query.used_types.keys()) <= u32::MAX,
        ensures
            r == self@.eligible(
                self@.catalog[index as int],
                query.least(),
                query.used_types@,
                served_under(query.used_types@, query.used_types.keys()),
            ),
    {
        let items = self.catalog.items();
        let item = &items[index];
        assert(items_view(items@)[index as int] == item@);
        if self.used.contains_key(item.id.as_str()) {
            return false;
        }
        if !item.meta.calibration.servable() {
            return false;
        }
        if self.measurement_only && !item.meta.calibration.usable_for_measurement() {
            return false;
        }
        if item.meta.irt.discrimination.lt(query.min_discrimination()) {
            return false;
        }
        if !self.blueprint.allows(item.meta.dimensions.as_slice(), &query.used_types) {
            return false;
        }
        self.exposure.permits(item.id.as_str())
    }

    /// The best candidates of the pool, best first.
    fn shortlist(&self, query: &Query, weights: &Vec<Option<Real>>) -> (list: Vec<(usize, Real)>)
        requires
            self.wf(),
            served_under(query.used_types@, query.used_types.keys()) <= u32::MAX,
            weights@.len() == self@.catalog.len(),
            forall|i: int|
                0 <= i < weights@.len() && weights@[i] is Some ==> !(
                #[trigger] weights@[i]->0).not_a_number(),
        ensures
            is_shortlist(list@, self@, *query, weights@, self@.catalog.len() as int),
            list@.len() == 0 ==> forall|i: int| !self@.candidate(*query, weights@, i),
    {
        let mut list: Vec<(usize, Real)> = Vec::new();
        let count: usize = self.catalog.len();
        for i in 0..count
            invariant
                self.wf(),
                count == self@.catalog.len(),
                served_under(query.used_types@, query.used_types.keys()) <= u32::MAX,
                weights@.len() == self@.catalog.len(),
                forall|i: int|
                    0 <= i < weights@.len() && weights@[i] is Some ==> !(
                    #[trigger] weights@[i]->0).not_a_number(),
                is_shortlist(list@, self@, *query, weights@, i as int),
        {
            let ghost before = list@;
            match weights[i] {
                Some(weight) => {
                    if self.is_eligible(i, query) {
                        consider(
                            &mut list,
                            (i, weight),
                            self.randomesque_k,
                            Ghost(self@),
                            Ghost(*query),
                            Ghost(weights@),
                        );
                    } else {
                        assert(!self@.candidate(*query, weights@, i as int));
                    }
                },
                None => {
                    assert(!self@.candidate(*query, weights@, i as int));
                },
            }
        }
        proof {
            if list@.len() == 0 {
                assert forall|i: int| !self@.candidate(*query, weights@, i) by {
                    if self@.candidate(*query, weights@, i) {
                        assert(listed(list@, i));
                    }
                }
            }
        }
        list
    }

    /// Hand out an item of the pool.
    fn serve(&mut self, index: usize)
        requires
            index < old(self)@.catalog.len(),
            old(self)@.exposure.total < u64::MAX,
        ensures
            final(self)@ == old(self)@.serving(index as int),
    {
        let ghost before = self.served@;
        let items = self.catalog.items();
        assert(items_view(items@)[index as int] == items@[index as int]@);
        let id = items[index].id.clone();
        let version: u32 = items[index].meta.version;
        self.exposure.record(id.as_str());
        self.used.insert(id.clone(), ());
        self.served.push(ServedItem { id, version });
        assert(served_view(self.served@) =~= served_view(before).push((id@, version)));
        assert(self@ =~= old(self)@.serving(index as int));
    }

    /// What the items of the pool weigh in a selection.
    fn weigh(&self, query: &Query, information: &Vec<Real>) -> (r: Vec<Option<Real>>)
        requires
            information@.len() == self@.catalog.len(),
        ensures
            r@ == weights_of(self@.catalog, *query, information@),
    {
        let items = self.catalog.items();
        let mut weights: Vec<Option<Real>> = Vec::new();
        for i in 0..items.len()
            invariant
                items_view(items@) == self@.catalog,
                information@.len() == self@.catalog.len(),
                weights@ == weights_of(self@.catalog, *query, information@).take(i as int),
        {
            assert(items_view(items@)[i as int] == items@[i as int]@);
            let weight = match weigh(&items[i], query, information[i]) {
                Some(weight) => Some(
                    if weight.is_nan() {
                        Real::zero()
                    } else {
                        weight
                    },
                ),
                None => None,
            };
            weights.push(weight);
            assert(weights@ =~= weights_of(self@.catalog, *query, information@).take(i + 1));
        }
        assert(weights@ =~= weights_of(self@.catalog, *query, information@));
        weights
    }

    /// Select an item. `information` gives what each item of the pool informs at the
    /// ability of the query.
    ///
    /// Taking the single best every time is what burns a bank, so one of the
    /// best few is to be drawn by weight: where there are several, they are
    /// handed back, and [`Self::drawn`] serves the one that was drawn.
    pub fn select_question(&mut self, query: &Query, information: &Vec<Real>) -> (r: Step)
        requires
            old(self).wf(),
            old(self)@.exposure.total < u64::MAX,
            served_under(query.used_types@, query.used_types.keys()) <= u32::MAX,
            information@.len() == old(self)@.catalog.len(),
        ensures
            final(self).wf(),
            selects(
                old(self)@,
                final(self)@,
                *query,
                weights_of(old(self)@.catalog, *query, information@),
                r,
            ),
    {
        let weights = self.weigh(query, information);
        self.select_weighed(query, &weights)
    }

    /// Select an item by the weights of the pool.
    fn select_weighed(&mut self, query: &Query, weights: &Vec<Option<Real>>) -> (r: Step)
        requires
            old(self).wf(),
            old(self)@.exposure.total < u64::MAX,
            served_under(query.used_types@, query.used_types.keys()) <= u32::MAX,
            weights@.len() == old(self)@.catalog.len(),
            forall|i: int|
                0 <= i < weights@.len() && weights@[i] is Some ==> !(
                #[trigger] weights@[i]->0).not_a_number(),
        ensures
            final(self).wf(),
            selects(old(self)@, final(self)@, *query, weights@, r),
    {
        let list = self.shortlist(query, weights);
        if list.len() == 0 {
            if self.measurement_only || !self.generates {
                return Step::Exhausted;
            }
            let seed: u64 = draw_word(&mut self.rng);
            return Step::Generate {
                difficulty: query.target_difficulty(),
                seed,
                attempts: self.generation_attempts,
            };
        }
        if list.len() == 1 {
            let index: usize = list[0].0;
            assert(list@[0] == (index, weights@[index as int]->0));
            assert(list@ =~= seq![(index, weights@[index as int]->0)]);
            self.serve(index);
            return Step::Served(index);
        }
        Step::Draw(list)
    }

    /// Serve the item that was drawn from a shortlist. Where no draw by weight
    /// was possible, because all weights are zero or infinite, one is drawn
    /// uniformly rather than failing a selection over a degenerate surface.
    pub fn drawn(&mut self, list: &Vec<(usize, Real)>, draw: Option<usize>) -> (r: usize)
        requires
            list@.len() > 0,
            forall|p: int| 0 <= p < list@.len() ==> (#[trigger] list@[p]).0 < old(self)@.catalog.len(),
            draw matches Some(p) ==> p < list@.len(),
            old(self)@.exposure.total < u64::MAX,
        ensures
            draw matches Some(p) ==> r == list@[p as int].0,
            listed(list@, r as int),
            draw is Some ==> final(self)@ == old(self)@.serving(r as int),
            final(self)@ == (BankView {
                randomness: final(self)@.randomness,
                ..old(self)@.serving(r as int)
            }),
    {
        let position: usize = match draw {
            Some(p) => p,
            None => draw_below(&mut self.rng, list.len()),
        };
        let index: usize = list[position].0;
        assert(list@[position as int].0 == index);
        self.serve(index);
        index
    }

    /// Add a synthesised item to the pool and serve it. Without one, the bank is
    /// exhausted.
    pub fn synthesised(&mut self, generated: Option<GeneratedItem>) -> (r: Option<usize>)
        requires
            old(self)@.exposure.total < u64::MAX,
            old(self)@.catalog.len() < usize::MAX,
        ensures
            match (generated, r) {
                (None, None) => final(self)@ == old(self)@,
                (Some(item), Some(index)) => index == old(self)@.catalog.len() && final(self)@
                    == (BankView {
                    catalog: old(self)@.catalog.push(
                        ItemView { id: item.dto.challenge.id@, meta: item.dto.meta@ },
                    ),
                    generated: old(self)@.generated.push(item),
                    ..old(self)@
                }).serving(index as int),
                _ => false,
            },
    {
        match generated {
            Some(item) => {
                let entry = BankItem::new(item.dto.challenge.id.clone(), item.dto.meta.clone());
                let index: usize = self.catalog.len();
                self.catalog.push(entry);
                self.generated.push(item);
                assert(self@ =~= BankView {
                    catalog: old(self)@.catalog.push(
                        ItemView { id: item.dto.challenge.id@, meta: item.dto.meta@ },
                    ),
                    generated: old(self)@.generated.push(item),
                    ..old(self)@
                });
                self.serve(index);
                Some(index)
            },
            None => None,
        }
    }

    /// What the bank holds, in numbers. Withdrawn items do not widen a range.
    pub fn stats(&self) -> (r: PoolStats)
        ensures
            r.total == self@.catalog.len(),
            r.used == self@.used.len(),
            r.servable == servable_count(self@.catalog),
            r.available == available_count(self@.catalog, self@.used),
            spans(r.difficulty_range, self@.catalog, difficulty()),
            spans(r.discrimination_range, self@.catalog, discrimination()),
            r.average_difficulty == average_of(self@.catalog, difficulty()),
            r.average_discrimination == average_of(self@.catalog, discrimination()),
    {
        let items = self.catalog.items();
        let ghost pool = self@.catalog;
        let mut servable: usize = 0;
        let mut available: usize = 0;
        let mut b = (Real::infinity(), Real::infinity().neg());
        let mut a = (Real::infinity(), Real::infinity().neg());
        let mut sum_b = Real::zero();
        let mut sum_a = Real::zero();
        for i in 0..items.len()
            invariant
                items_view(items@) == pool,
                pool == self@.catalog,
                servable <= i,
                available <= i,
                servable == servable_count(pool.take(i as int)),
                available == available_count(pool.take(i as int), self@.used),
                encloses(b, pool.take(i as int), difficulty()),
                encloses(a, pool.take(i as int), discrimination()),
                sum_b == total_of(pool.take(i as int), difficulty()),
                sum_a == total_of(pool.take(i as int), discrimination()),
        {
            let item = &items[i];
            let ghost before = pool.take(i as int);
            let ghost after = pool.take(i + 1);
            let ghost old_b = b;
            let ghost old_a = a;
            assert(after.drop_last() =~= before);
            assert(after.last() == item@);
            assert(item@ == pool[i as int]);
            if item.meta.calibration.servable() {
                b = widen(b, item.meta.irt.difficulty);
                a = widen(a, item.meta.irt.discrimination);
                sum_b = sum_b.sum(item.meta.irt.difficulty);
                sum_a = sum_a.sum(item.meta.irt.discrimination);
                if !self.used.contains_key(item.id.as_str()) {
                    available = available + 1;
                }
                servable = servable + 1;
            }
            proof {
                lemma_range_grows(old_b, b, before, item@, difficulty());
                lemma_range_grows(old_a, a, before, item@, discrimination());
                assert(before.push(item@) =~= after);
            }
        }
        assert(pool.take(pool.len() as int) =~= pool);
        let mut average_difficulty = Real::zero();
        let mut average_discrimination = Real::zero();
        if servable == 0 {
            b = (Real::zero(), Real::zero());
            a = (Real::zero(), Real::zero());
        } else {
            let count = Real::of_count(servable as u64);
            average_difficulty = sum_b.divide(count);
            average_discrimination = sum_a.divide(count);
        }
        PoolStats {
            total: items.len(),
            used: self.used.len(),
            servable,
            available,
            difficulty_range: b,
            discrimination_range: a,
            average_difficulty,
            average_discrimination,
        }
    }

    /// Make every item available again, and forget what was handed out.
    pub fn reset(&mut self)
        ensures
            final(self)@ == (BankView { used: Set::empty(), served: Seq::empty(), ..old(self)@ }),
    {
        self.used.clear();
        self.served = Vec::new();
        assert(self@.used =~= Set::<Seq<char>>::empty());
        assert(self@.served =~= Seq::<(Seq<char>, u32)>::empty());
    }

    /// The index of the item served last.
    pub fn last_selected_index(&self) -> (r: Option<usize>)
        ensures
            r == if self@.served.len() == 0 {
                None
            } else {
                Some((self@.served.len() - 1) as usize)
            },
    {
        if self.served.len() == 0 {
            None
        } else {
            Some(self.served.len() - 1)
        }
    }
}

/// The ends of a range once one more number lies in it.
spec fn widened(range: (Real, Real), value: Real) -> (Real, Real) {
    (
        if value.below(range.0) {
            value
        } else {
            range.0
        },
        if range.1.below(value) {
            value
        } else {
            range.1
        },
    )
}

fn widen(range: (Real, Real), value: Real) -> (r: (Real, Real))
    ensures
        r == widened(range, value),
{
    let low = if value.lt(range.0) {
        value
    } else {
        range.0
    };
    let high = if range.1.lt(value) {
        value
    } else {
        range.1
    };
    (low, high)
}

proof fn lemma_range_grows(
    old_range: (Real, Real),
    range: (Real, Real),
    items: Seq<ItemView>,
    item: ItemView,
    measure: spec_fn(ItemView) -> Real,
)
    requires
        encloses(old_range, items, measure),
        range == if item.meta.calibration.live() {
            widened(old_range, measure(item))
        } else {
            old_range
        },
    ensures
        encloses(range, items.push(item), measure),
{
    let after = items.push(item);
    assert forall|i: int| 0 <= i < items.len() implies after[i] == items[i] by {}
    assert(after[items.len() as int] == item);
    assert forall|i: int|
        0 <= i < after.len() && (#[trigger] after[i]).meta.calibration.live() && !measure(
            after[i],
        ).not_a_number() implies range.0.at_most(measure(after[i])) && measure(after[i]).at_most(
        range.1,
    ) by {
        if i < items.len() {
            assert(items[i] == after[i]);
        }
    }
    if old_range.0 != (Real { bits: 0x7ff0_0000_0000_0000 }) {
        let low = choose|i: int|
            0 <= i < items.len() && (#[trigger] items[i]).meta.calibration.live() && old_range.0
                == measure(items[i]);
        assert(after[low] == items[low]);
    }
    if old_range.1 != (Real { bits: 0xfff0_0000_0000_0000 }) {
        let high = choose|i: int|
            0 <= i < items.len() && (#[trigger] items[i]).meta.calibration.live() && old_range.1
                == measure(items[i]);
        assert(after[high] == items[high]);
    }
}

/// No item is served twice: one on a shortlist was not handed out before, and
/// once it is, it is a candidate of no selection, until the bank is reset.
pub proof fn law_no_item_is_served_twice(
    bank: BankView,
    list: Seq<(usize, Real)>,
    query: Query,
    weights: Seq<Option<Real>>,
    i: int,
    later: Query,
    later_weights: Seq<Option<Real>>,
)
    requires
        is_shortlist(list, bank, query, weights, bank.catalog.len() as int),
        listed(list, i),
    ensures
        !bank.used.contains(bank.catalog[i].id),
        bank.serving(i).used.contains(bank.catalog[i].id),
        !bank.serving(i).candidate(later, later_weights, i),
{
    let p = choose|p: int| 0 <= p < list.len() && (#[trigger] list[p]).0 == i;
    assert(bank.candidate(query, weights, list[p].0 as int));
}

/// Withdrawn items are never served, and neither are items without calibration
/// while the bank serves measurement alone.
pub proof fn law_measurement_rests_on_calibrated_items(
    bank: BankView,
    list: Seq<(usize, Real)>,
    query: Query,
    weights: Seq<Option<Real>>,
    i: int,
)
    requires
        is_shortlist(list, bank, query, weights, bank.catalog.len() as int),
        listed(list, i),
    ensures
        bank.catalog[i].meta.calibration.live(),
        bank.measurement_only ==> bank.catalog[i].meta.calibration.measures(),
{
    let p = choose|p: int| 0 <= p < list.len() && (#[trigger] list[p]).0 == i;
    assert(bank.candidate(query, weights, list[p].0 as int));
}

/// A bank that samples from one item serves the heaviest candidate, and the
/// first in the pool of those that are equally heavy.
pub proof fn law_a_pool_of_one_serves_the_best(
    bank: BankView,
    list: Seq<(usize, Real)>,
    query: Query,
    weights: Seq<Option<Real>>,
    i: int,
)
    requires
        bank.randomesque_k == 1,
        is_shortlist(list, bank, query, weights, bank.catalog.len() as int),
        bank.candidate(query, weights, i),
        i <= usize::MAX,
    ensures
        list.len() == 1,
        list[0].0 == i || ranks_before(list[0], (i as usize, weights[i]->0)),
{
    if listed(list, i) {
        let p = choose|p: int| 0 <= p < list.len() && (#[trigger] list[p]).0 == i;
    }
}

/// What was served keeps its index: serving one more item leaves the earlier
/// ones, with their versions, where they were.
pub proof fn law_served_items_keep_their_index(bank: BankView, i: int, index: int)
    requires
        0 <= index < bank.served.len(),
    ensures
        bank.serving(i).served[index] == bank.served[index],
        bank.serving(i).served.len() == bank.served.len() + 1,
{
}

/// Whether a query asks for the nearest difficulty alone.
pub open spec fn asks_for_a_band(query: Query) -> bool {
    query.range is Some && query.min_discrimination is None
}

/// In the learner's field an item weighs 1.3 times what it informs, whichever of its
/// dimensions it is that the field is spelled like, and outside of it just what it informs.
pub proof fn law_the_learners_field_weighs_more(item: ItemView, query: Query, information: Real, i: int)
    requires
        !asks_for_a_band(query),
    ensures
        0 <= i < item.meta.dimensions.len() && query.field is Some && spelled_like(
            item.meta.dimensions[i],
            query.field->0@,
        ) ==> weighed(item, query, information) == Some(
            information.times(Real { bits: 0x3ff4_cccc_cccc_cccd }),
        ),
        query.field is None ==> weighed(item, query, information) == Some(information),
        query.field is Some && (forall|k: int|
            0 <= k < item.meta.dimensions.len() ==> !spelled_like(
                #[trigger] item.meta.dimensions[k],
                query.field->0@,
            )) ==> weighed(item, query, information) == Some(information),
{
    if query.field is Some {
        law_any_dimension_matches(item.meta.dimensions, query.field->0@);
    }
}

/// What an item weighs does not depend on the order of its dimensions.
pub proof fn law_the_order_of_dimensions_weighs_nothing(
    item: ItemView,
    other: ItemView,
    query: Query,
    information: Real,
)
    requires
        other.meta.irt == item.meta.irt,
        forall|dimension: SkillDimension|
            item.meta.dimensions.contains(dimension) <==> #[trigger] other.meta.dimensions.contains(
                dimension,
            ),
    ensures
        weighed(other, query, information) == weighed(item, query, information),
{
    if query.field is Some {
        law_the_order_of_dimensions_does_not_matter(
            item.meta.dimensions,
            other.meta.dimensions,
            query.field->0@,
        );
    }
}

/// How far an item's difficulty is from the one aimed at: the one asked for, or else the
/// ability, or else zero.
pub open spec fn off_target(item: ItemView, query: Query) -> Real {
    item.meta.irt.difficulty.minus(
        match (query.target_difficulty, query.ability) {
            (Some(difficulty), _) => difficulty,
            (None, Some(theta)) => theta,
            (None, None) => Real { bits: 0 },
        },
    ).absolute()
}

/// Asked for the nearest difficulty alone, an item within the range has a weight and one
/// outside has none; the nearer of two does not weigh less, whatever they inform and
/// whatever the learner's field; and one on target weighs one.
pub proof fn law_the_nearest_difficulty_weighs_most(
    near: ItemView,
    far: ItemView,
    query: Query,
    range: Real,
    first: Real,
    second: Real,
)
    requires
        query.range == Some(range),
        query.min_discrimination is None,
        off_target(near, query).at_most(off_target(far, query)),
    ensures
        range.below(off_target(near, query)) ==> weighed(near, query, first) is None,
        off_target(near, query).at_most(range) ==> weighed(near, query, first) is Some,
        weighed(far, query, second) is Some ==> weighed(near, query, first) is Some
            && weighed(far, query, second)->0.at_most(weighed(near, query, first)->0),
        off_target(near, query) == (Real { bits: 0 }) && !range.below(Real { bits: 0 })
            ==> weighed(near, query, first) == Some(Real { bits: 0x3ff0_0000_0000_0000 }),
{
    let one = Real { bits: 0x3ff0_0000_0000_0000 };
    let zero = Real { bits: 0 };
    let (d, e) = (off_target(near, query), off_target(far, query));
    assert(d.magnitude() == d.bits && e.magnitude() == e.bits);
    law_finite_numbers_add_up(one, d);
    law_finite_numbers_add_up(one, e);
    law_finite_numbers_add_up(one, zero);
    law_sums_keep_order(one, one, d, e);
    law_sums_keep_order(one, one, zero, d);
    lemma_one_more_nothing();
    law_inverses_turn_order(one.plus(d), one.plus(e));
    law_inverses_turn_order(one, one);
}

proof fn lemma_one_more_nothing()
    ensures
        (Real { bits: 0x3ff0_0000_0000_0000 }).plus(Real { bits: 0 }) == (Real {
            bits: 0x3ff0_0000_0000_0000,
        }),
{
    reveal(Real::plus);
    let one = Real { bits: 0x3ff0_0000_0000_0000 };
    let zero = Real { bits: 0 };
    law_numbers_are_not_rounded(one);
    assert(zero.significand() == 0);
    assert(0 * vstd::arithmetic::power2::pow2((zero.scale() + 1074) as nat) == 0);
    assert(zero.steps() == 0);
    vstd::arithmetic::power2::lemma_pow2_pos((one.scale() + 1074) as nat);
    assert(one.significand() > 0);
    assert(one.steps() > 0) by (nonlinear_arith)
        requires
            one.steps() == one.significand() * vstd::arithmetic::power2::pow2(
                (one.scale() + 1074) as nat,
            ),
            one.significand() > 0,
            vstd::arithmetic::power2::pow2((one.scale() + 1074) as nat) > 0,
    ;
}

/// An item is a candidate of a selection exactly if it has a weight, was not served
/// before, is not withdrawn, is online or calibrated where the bank measures,
/// discriminates enough, and neither the blueprint nor the exposure policy withholds it.
pub proof fn law_what_makes_a_candidate(
    bank: BankView,
    query: Query,
    weights: Seq<Option<Real>>,
    i: int,
)
    requires
        0 <= i < bank.catalog.len(),
        weights.len() == bank.catalog.len(),
    ensures
        bank.candidate(query, weights, i) ==> weights[i] is Some && !bank.used.contains(
            bank.catalog[i].id,
        ) && bank.catalog[i].meta.calibration != CalibrationState::Retired
            && (bank.measurement_only ==> bank.catalog[i].meta.calibration
            != CalibrationState::Provisional) && (query.min_discrimination matches Some(least)
            ==> !bank.catalog[i].meta.irt.discrimination.below(least)) && bank.blueprint.permits(
            bank.catalog[i].meta.dimensions,
            query.used_types@,
            served_under(query.used_types@, query.used_types.keys()),
        ) && bank.exposure.allows(bank.catalog[i].id),
        weights[i] is Some && !bank.used.contains(bank.catalog[i].id)
            && bank.catalog[i].meta.calibration != CalibrationState::Retired && (
        !bank.measurement_only || bank.catalog[i].meta.calibration != CalibrationState::Provisional)
            && (match query.min_discrimination {
            Some(least) => !bank.catalog[i].meta.irt.discrimination.below(least),
            None => !bank.catalog[i].meta.irt.discrimination.below(Real { bits: 0 }),
        }) && bank.blueprint.permits(
            bank.catalog[i].meta.dimensions,
            query.used_types@,
            served_under(query.used_types@, query.used_types.keys()),
        ) && bank.exposure.allows(bank.catalog[i].id) ==> bank.candidate(query, weights, i),
{
}

/// Nothing that is left off a shortlist weighs more than what is on it, and a shortlist
/// starts with the heaviest.
pub proof fn law_shortlists_hold_the_heaviest(
    bank: BankView,
    list: Seq<(usize, Real)>,
    query: Query,
    weights: Seq<Option<Real>>,
    p: int,
    i: int,
)
    requires
        is_shortlist(list, bank, query, weights, bank.catalog.len() as int),
        0 <= p < list.len(),
        bank.candidate(query, weights, i),
        i <= usize::MAX,
        forall|k: int|
            0 <= k < weights.len() && weights[k] is Some ==> !(
            #[trigger] weights[k]->0).not_a_number(),
    ensures
        !listed(list, i) ==> weights[i]->0.rank() <= list[p].1.rank(),
        !listed(list, i) ==> list.len() == bank.randomesque_k,
        weights[i]->0.rank() <= list[0].1.rank(),
        list[p].1.rank() <= list[0].1.rank(),
        list[p].1 == weights[list[p].0 as int]->0,
{
    assert(bank.candidate(query, weights, list[p].0 as int));
    assert(bank.candidate(query, weights, list[0].0 as int));
    assert(!weights[list[p].0 as int]->0.not_a_number());
    if p > 0 {
        assert(ranks_before(list[0], list[p]));
    }
    if listed(list, i) {
        let q = choose|q: int| 0 <= q < list.len() && (#[trigger] list[q]).0 == i;
        assert(list[q].1 == weights[i]->0);
        if q > 0 {
            assert(ranks_before(list[0], list[q]));
        }
    } else {
        assert(ranks_before(list[p], (i as usize, weights[i]->0)));
        assert(ranks_before(list[0], (i as usize, weights[i]->0)));
    }
}

/// What is handed out is remembered by its identity and version, counts against the
/// exposure of that item alone, and is not handed out again.
pub proof fn law_serving_is_remembered(bank: BankView, i: int, other: Seq<char>)
    requires
        0 <= i < bank.catalog.len(),
        bank.exposure.count(bank.catalog[i].id) < u64::MAX,
    ensures
        bank.serving(i).served.last() == (bank.catalog[i].id, bank.catalog[i].meta.version),
        bank.serving(i).used.contains(bank.catalog[i].id),
        bank.used.contains(other) ==> bank.serving(i).used.contains(other),
        other != bank.catalog[i].id ==> bank.serving(i).used.contains(other)
            == bank.used.contains(other),
        bank.serving(i).exposure.count(bank.catalog[i].id) == bank.exposure.count(
            bank.catalog[i].id,
        ) + 1,
        bank.serving(i).exposure.total == bank.exposure.total + 1,
        bank.serving(i).catalog == bank.catalog,
        bank.serving(i).generated == bank.generated,
        bank.serving(i).randomness == bank.randomness,
{
}

/// What a bank does unless told otherwise: it samples from the five best, and tries two
/// dozen parameter vectors.
pub proof fn law_what_a_bank_does_by_default(catalog: Seq<ItemView>, seed: u64)
    ensures
        BankView::fresh(catalog, seed).randomesque_k == 5,
        BankView::fresh(catalog, seed).attempts == 24,
        BankView::fresh(catalog, seed).measurement_only,
        !BankView::fresh(catalog, seed).generates,
        BankView::fresh(catalog, seed).served.len() == 0,
        BankView::fresh(catalog, seed).generated.len() == 0,
        BankView::fresh(catalog, seed).catalog == catalog,
{
}


/// What is counted and summed over a bank passes over the items that are withdrawn: one more of them
/// changes nothing; one more that is not withdrawn counts once, adds its measure, and is available
/// unless it was served.
pub proof fn law_withdrawn_items_do_not_count(
    items: Seq<ItemView>,
    item: ItemView,
    used: Set<Seq<char>>,
    measure: spec_fn(ItemView) -> Real,
)
    ensures
        item.meta.calibration is Retired ==> servable_count(items.push(item)) == servable_count(items)
            && available_count(items.push(item), used) == available_count(items, used) && total_of(
            items.push(item),
            measure,
        ) == total_of(items, measure) && average_of(items.push(item), measure) == average_of(
            items,
            measure,
        ),
        !(item.meta.calibration is Retired) ==> servable_count(items.push(item)) == servable_count(
            items,
        ) + 1 && total_of(items.push(item), measure) == total_of(items, measure).plus(measure(item)),
        !(item.meta.calibration is Retired) && used.contains(item.id) ==> available_count(
            items.push(item),
            used,
        ) == available_count(items, used),
        !(item.meta.calibration is Retired) && !used.contains(item.id) ==> available_count(
            items.push(item),
            used,
        ) == available_count(items, used) + 1,
{
    assert(items.push(item).drop_last() =~= items);
}

/// The range of a bank holds the measure of every item that is not withdrawn, and its ends are
/// measures of such items.
pub proof fn law_the_range_holds_every_item(
    range: (Real, Real),
    items: Seq<ItemView>,
    i: int,
)
    requires
        spans(range, items, difficulty()),
        0 <= i < items.len(),
        !(items[i].meta.calibration is Retired),
        !items[i].meta.irt.difficulty.not_a_number(),
    ensures
        range.0.at_most(items[i].meta.irt.difficulty),
        items[i].meta.irt.difficulty.at_most(range.1),
        items.len() == 1 && items[i].meta.irt.difficulty.finite() ==> range.0
            == items[i].meta.irt.difficulty && range.1 == items[i].meta.irt.difficulty,
{
    lemma_servable(items, i);
    assert(difficulty()(items[i]) == items[i].meta.irt.difficulty);
}

proof fn lemma_servable(items: Seq<ItemView>, i: int)
    requires
        0 <= i < items.len(),
        !(items[i].meta.calibration is Retired),
    ensures
        servable_count(items) > 0,
    decreases items.len(),
{
    if i < items.len() - 1 {
        assert(items.drop_last()[i] == items[i]);
        lemma_servable(items.drop_last(), i);
    }
}

/// Of two candidates the heavier ranks first, and of two that weigh the same the one that stands
/// earlier in the catalogue; a weight that is no number counts as none.
pub proof fn law_the_heavier_candidate_ranks_first(a: (usize, Real), b: (usize, Real))
    ensures
        b.1.below(a.1) ==> ranks_before(a, b) && !ranks_before(b, a),
        a.1.equals(b.1) && a.0 < b.0 ==> ranks_before(a, b) && !ranks_before(b, a),
        rankable(a.1) == if a.1.not_a_number() {
            Real { bits: 0 }
        } else {
            a.1
        },
{
}

/// A bank makes a new item only where it may and must: nothing suits, it does not measure, and it was
/// told to generate. The item is made for the difficulty asked for, for the learner's ability where
/// none was asked for, and for the middle where neither is known.
pub proof fn law_generating_is_the_last_resort(
    before: BankView,
    after: BankView,
    query: Query,
    weights: Seq<Option<Real>>,
    r: Step,
    i: int,
)
    requires
        selects(before, after, query, weights, r),
    ensures
        r is Generate ==> !before.candidate(query, weights, i) && !before.measurement_only
            && before.generates,
        r is Exhausted ==> !before.candidate(query, weights, i) && (before.measurement_only
            || !before.generates),
        r matches Step::Generate { difficulty, seed, attempts } ==> (attempts == before.attempts
            && difficulty == match (query.target_difficulty, query.ability) {
            (Some(asked), _) => asked,
            (None, Some(theta)) => theta,
            (None, None) => Real { bits: 0 },
        }),
        r is Generate || r is Exhausted || r is Draw ==> after.served == before.served && after.used
            == before.used && after.exposure == before.exposure,
        r matches Step::Served(index) ==> before.candidate(query, weights, index as int),
{
    if r is Served {
        let list = shortlist_of(r, weights);
        assert(list[0].0 == r->Served_0);
    }
}

}
