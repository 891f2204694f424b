//! The item pool.

use crate::meta::{ChallengeMeta, ItemId, MetaView, SkillDimension};
use crate::text::{
    alike, ascii_lower_text, law_case_is_all_that_is_ignored, same, same_ignoring_ascii_case,
};
use vstd::prelude::*;

verus! {

/// One selectable item: a challenge's identity plus its psychometric metadata.
#[derive(Debug, PartialEq, Eq)]
pub struct BankItem {
    /// Stable item identity.
    pub id: ItemId,
    /// Parameters, calibration state and dimensions.
    pub meta: ChallengeMeta,
}

/// One selectable item, by value.
pub struct ItemView {
    /// Stable item identity.
    pub id: Seq<char>,
    /// Parameters, calibration state and dimensions.
    pub meta: MetaView,
}

impl View for BankItem {
    type V = ItemView;

    open spec fn view(&self) -> ItemView {
        ItemView { id: self.id@, meta: self.meta@ }
    }
}

impl Clone for BankItem {
    fn clone(&self) -> (r: Self)
        ensures
            r@ == self@,
    {
        BankItem { id: self.id.clone(), meta: self.meta.clone() }
    }
}

/// A pool of items, by value.
pub open spec fn items_view(items: Seq<BankItem>) -> Seq<ItemView> {
    Seq::new(items.len(), |i: int| items[i]@)
}

impl BankItem {
    /// Build an item.
    pub fn new(id: ItemId, meta: ChallengeMeta) -> (r: Self)
        ensures
            r == (BankItem { id, meta }),
    {
        BankItem { id, meta }
    }

    /// Whether the item exercises `dimension`.
    pub fn has_dimension(&self, dimension: SkillDimension) -> (r: bool)
        ensures
            r == self@.meta.dimensions.contains(dimension),
    {
        for i in 0..self.meta.dimensions.len()
            invariant
                forall|j: int| 0 <= j < i ==> self.meta.dimensions@[j] != dimension,
        {
            if self.meta.dimensions[i] == dimension {
                return true;
            }
        }
        false
    }

    /// Whether any of the item's dimensions matches this tag, whatever the case
    /// of its letters.
    pub fn matches_field(&self, field: &str) -> (r: bool)
        ensures
            r == tagged(self@.meta.dimensions, field@),
    {
        for i in 0..self.meta.dimensions.len()
            invariant
                forall|j: int|
                    0 <= j < i ==> ascii_lower_text((#[trigger] self.meta.dimensions@[j]).spelling())
                        != ascii_lower_text(field@),
        {
            if same_ignoring_ascii_case(self.meta.dimensions[i].as_str(), field) {
                return true;
            }
        }
        false
    }
}

/// Whether one of the dimensions is spelled like a tag, whatever the case of
/// its letters.
pub open spec fn tagged(dimensions: Seq<SkillDimension>, field: Seq<char>) -> bool {
    exists|i: int|
        0 <= i < dimensions.len() && ascii_lower_text((#[trigger] dimensions[i]).spelling())
            == ascii_lower_text(field)
}

/// A view of the pool that does not change while a selection runs over it.
#[derive(Debug, PartialEq, Eq)]
pub struct CatalogSnapshot {
    items: Vec<BankItem>,
}

impl View for CatalogSnapshot {
    type V = Seq<ItemView>;

    closed spec fn view(&self) -> Seq<ItemView> {
        items_view(self.items@)
    }
}

impl CatalogSnapshot {
    /// Build a snapshot.
    pub fn new(items: Vec<BankItem>) -> (r: Self)
        ensures
            r@ == items_view(items@),
    {
        CatalogSnapshot { items }
    }

    /// All items, in catalog order.
    pub fn items(&self) -> (r: &Vec<BankItem>)
        ensures
            items_view(r@) == self@,
    {
        &self.items
    }

    /// Number of items.
    pub fn len(&self) -> (r: usize)
        ensures
            r == self@.len(),
    {
        self.items.len()
    }

    /// Whether the pool is empty.
    pub fn is_empty(&self) -> (r: bool)
        ensures
            r == (self@.len() == 0),
    {
        self.items.len() == 0
    }

    /// Look an item up by identity. Of items that share one, the last counts.
    pub fn get(&self, id: &str) -> (r: Option<&BankItem>)
        ensures
            match r {
                Some(item) => exists|i: int|
                    0 <= i < self@.len() && #[trigger] self@[i] == item@ && item@.id == id@ && forall|j: int|
                        i < j < self@.len() ==> (#[trigger] self@[j]).id != id@,
                None => forall|i: int| 0 <= i < self@.len() ==> (#[trigger] self@[i]).id != id@,
            },
    {
        let mut i: usize = self.items.len();
        while i > 0
            invariant
                i <= self.items@.len(),
                forall|j: int| i <= j < self@.len() ==> (#[trigger] self@[j]).id != id@,
            decreases i,
        {
            i -= 1;
            if same(self.items[i].id.as_str(), id) {
                assert(self@[i as int] == self.items@[i as int]@);
                return Some(&self.items[i]);
            }
            assert(self@[i as int] == self.items@[i as int]@);
        }
        None
    }

    /// The pool with one more item at its end.
    pub fn push(&mut self, item: BankItem)
        ensures
            final(self)@ == old(self)@.push(item@),
    {
        let ghost before = self.items@;
        self.items.push(item);
        assert(items_view(self.items@) =~= items_view(before).push(item@));
    }
}

/// An item matches the field spelled like any of its dimensions, wherever it stands among
/// them and whatever the case of its letters, and no other field.
pub proof fn law_any_dimension_matches(dimensions: Seq<SkillDimension>, field: Seq<char>)
    ensures
        forall|i: int|
            0 <= i < dimensions.len() && spelled_like(#[trigger] dimensions[i], field) ==> tagged(
                dimensions,
                field,
            ),
        (forall|i: int| 0 <= i < dimensions.len() ==> !spelled_like(#[trigger] dimensions[i], field))
            ==> !tagged(dimensions, field),
{
    assert forall|i: int| 0 <= i < dimensions.len() implies spelled_like(
        #[trigger] dimensions[i],
        field,
    ) == (ascii_lower_text(dimensions[i].spelling()) == ascii_lower_text(field)) by {
        lemma_spelled_like(dimensions[i], field);
    }
}

proof fn lemma_spelled_like(dimension: SkillDimension, field: Seq<char>)
    ensures
        spelled_like(dimension, field) == (ascii_lower_text(dimension.spelling())
            == ascii_lower_text(field)),
{
    let text = match dimension {
        SkillDimension::Kinematics => "kinematics"@,
        SkillDimension::Sequencing => "sequencing"@,
        SkillDimension::Iteration => "iteration"@,
        SkillDimension::Precision => "precision"@,
        SkillDimension::Safety => "safety"@,
    };
    assert(text == dimension.spelling());
    law_case_is_all_that_is_ignored(text, field);
}

/// Whether a dimension is spelled like a field, whatever the case of its letters.
pub open spec fn spelled_like(dimension: SkillDimension, field: Seq<char>) -> bool {
    let text = match dimension {
        SkillDimension::Kinematics => "kinematics"@,
        SkillDimension::Sequencing => "sequencing"@,
        SkillDimension::Iteration => "iteration"@,
        SkillDimension::Precision => "precision"@,
        SkillDimension::Safety => "safety"@,
    };
    alike(text, field)
}

/// Which fields an item matches does not depend on the order of its dimensions, nor on
/// how often one is given.
pub proof fn law_the_order_of_dimensions_does_not_matter(
    dimensions: Seq<SkillDimension>,
    other: Seq<SkillDimension>,
    field: Seq<char>,
)
    requires
        forall|dimension: SkillDimension|
            dimensions.contains(dimension) <==> #[trigger] other.contains(dimension),
    ensures
        tagged(dimensions, field) == tagged(other, field),
{
    if tagged(dimensions, field) {
        let i = choose|i: int|
            0 <= i < dimensions.len() && ascii_lower_text((#[trigger] dimensions[i]).spelling())
                == ascii_lower_text(field);
        assert(other.contains(dimensions[i]));
        let j = choose|j: int| 0 <= j < other.len() && other[j] == dimensions[i];
        assert(ascii_lower_text(other[j].spelling()) == ascii_lower_text(field));
    }
    if tagged(other, field) {
        let i = choose|i: int|
            0 <= i < other.len() && ascii_lower_text((#[trigger] other[i]).spelling())
                == ascii_lower_text(field);
        assert(other.contains(other[i]));
        let j = choose|j: int| 0 <= j < dimensions.len() && dimensions[j] == other[i];
        assert(ascii_lower_text(dimensions[j].spelling()) == ascii_lower_text(field));
    }
}

}
