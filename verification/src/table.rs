//! A map from texts to values, kept in the dictionary order of its keys.

use crate::text::{
    less, lemma_text_less_irreflexive, lemma_text_less_total,
    lemma_text_less_transitive, same, text_less,
};
use vstd::prelude::*;

verus! {

/// A map from texts to values. Walking it visits keys in dictionary order.
#[derive(Debug)]
pub struct TextMap<V> {
    entries: Vec<(String, V)>,
}

/// Whether keys come in strictly ascending dictionary order.
pub open spec fn strictly_ascending(keys: Seq<Seq<char>>) -> bool {
    forall|i: int, j: int| 0 <= i < j < keys.len() ==> text_less(#[trigger] keys[i], #[trigger] keys[j])
}

spec fn keys_of<V>(entries: Seq<(String, V)>) -> Seq<Seq<char>> {
    Seq::new(entries.len(), |i: int| entries[i].0@)
}

spec fn holds<V>(entries: Seq<(String, V)>, key: Seq<char>, i: int) -> bool {
    0 <= i < entries.len() && entries[i].0@ == key
}

spec fn index_of<V>(entries: Seq<(String, V)>, key: Seq<char>) -> int {
    choose|i: int| holds(entries, key, i)
}

spec fn map_of<V>(entries: Seq<(String, V)>) -> Map<Seq<char>, V> {
    Map::new(
        |key: Seq<char>| exists|i: int| holds(entries, key, i),
        |key: Seq<char>| entries[index_of(entries, key)].1,
    )
}

proof fn lemma_entry<V>(entries: Seq<(String, V)>, i: int)
    requires
        strictly_ascending(keys_of(entries)),
        0 <= i < entries.len(),
    ensures
        map_of(entries).contains_key(entries[i].0@),
        map_of(entries)[entries[i].0@] == entries[i].1,
        index_of(entries, entries[i].0@) == i,
{
    let key = entries[i].0@;
    assert(holds(entries, key, i));
    let j = index_of(entries, key);
    assert(holds(entries, key, j));
    let keys = keys_of(entries);
    assert(keys[i] == key && keys[j] == key);
    lemma_text_less_irreflexive(key);
    if i < j {
        assert(text_less(keys[i], keys[j]));
    } else if j < i {
        assert(text_less(keys[j], keys[i]));
    }
}

proof fn lemma_ascending_no_duplicates(keys: Seq<Seq<char>>)
    requires
        strictly_ascending(keys),
    ensures
        keys.no_duplicates(),
{
    assert forall|i: int, j: int| 0 <= i < keys.len() && 0 <= j < keys.len() && i != j implies keys[i]
        != keys[j] by {
        lemma_text_less_irreflexive(keys[i]);
        if i < j {
            assert(text_less(keys[i], keys[j]));
        } else {
            assert(text_less(keys[j], keys[i]));
        }
    }
}

proof fn lemma_domain<V>(entries: Seq<(String, V)>)
    requires
        strictly_ascending(keys_of(entries)),
    ensures
        map_of(entries).dom() == keys_of(entries).to_set(),
        map_of(entries).dom().finite(),
        map_of(entries).dom().len() == entries.len(),
{
    let keys = keys_of(entries);
    assert forall|key: Seq<char>| map_of(entries).dom().contains(key) <==> keys.to_set().contains(key) by {
        if map_of(entries).dom().contains(key) {
            let i = index_of(entries, key);
            assert(holds(entries, key, i));
            assert(keys[i] == key);
        }
        if keys.to_set().contains(key) {
            let i = choose|i: int| 0 <= i < keys.len() && keys[i] == key;
            assert(holds(entries, key, i));
        }
    }
    assert(map_of(entries).dom() =~= keys.to_set());
    lemma_ascending_no_duplicates(keys);
    keys.unique_seq_to_set();
}

impl<V> TextMap<V> {
    #[verifier::type_invariant]
    spec fn ordered(self) -> bool {
        strictly_ascending(keys_of(self.entries@))
    }

    /// The keys, in the order the map is walked.
    pub closed spec fn keys(self) -> Seq<Seq<char>> {
        keys_of(self.entries@)
    }

    /// An empty map.
    pub fn new() -> (r: TextMap<V>)
        ensures
            r@ == Map::<Seq<char>, V>::empty(),
            r.keys() == Seq::<Seq<char>>::empty(),
    {
        let r = TextMap { entries: Vec::new() };
        assert(r@ =~= Map::<Seq<char>, V>::empty());
        assert(r.keys() =~= Seq::<Seq<char>>::empty());
        r
    }

    /// How many keys the map holds. They are walked in ascending order, each
    /// once.
    pub fn len(&self) -> (r: usize)
        ensures
            r == self@.len(),
            r == self.keys().len(),
            self@.dom().finite(),
            strictly_ascending(self.keys()),
            self.keys().no_duplicates(),
            self.keys().to_set() == self@.dom(),
            forall|i: int| 0 <= i < self.keys().len() ==> self@.contains_key(#[trigger] self.keys()[i]),
    {
        proof {
            use_type_invariant(self);
            lemma_domain(self.entries@);
            lemma_ascending_no_duplicates(self.keys());
            assert forall|i: int| 0 <= i < self.keys().len() implies self@.contains_key(
                #[trigger] self.keys()[i],
            ) by {
                lemma_entry(self.entries@, i);
            }
        }
        self.entries.len()
    }

    /// Position of a key, or where it would go.
    fn find(&self, key: &str) -> (r: (bool, usize))
        ensures
            r.1 <= self.entries@.len(),
            r.0 ==> r.1 < self.entries@.len() && self.entries@[r.1 as int].0@ == key@,
            !r.0 ==> !self@.contains_key(key@),
            !r.0 ==> forall|i: int|
                0 <= i < r.1 ==> text_less(#[trigger] keys_of(self.entries@)[i], key@),
            !r.0 ==> forall|i: int|
                r.1 <= i < self.entries@.len() ==> text_less(key@, #[trigger] keys_of(self.entries@)[i]),
    {
        let ghost keys = keys_of(self.entries@);
        proof {
            use_type_invariant(self);
        }
        let mut i: usize = 0;
        while i < self.entries.len() && less(self.entries[i].0.as_str(), key)
            invariant
                i <= self.entries@.len(),
                keys == keys_of(self.entries@),
                strictly_ascending(keys),
                forall|j: int| 0 <= j < i ==> text_less(#[trigger] keys[j], key@),
            decreases self.entries.len() - i,
        {
            assert(keys[i as int] == self.entries@[i as int].0@);
            i += 1;
        }
        if i < self.entries.len() && same(self.entries[i].0.as_str(), key) {
            return (true, i);
        }
        proof {
            assert forall|j: int| i <= j < keys.len() implies text_less(key@, #[trigger] keys[j]) by {
                lemma_text_less_total(keys[i as int], key@);
                assert(keys[i as int] == self.entries@[i as int].0@);
                if i < j {
                    assert(text_less(keys[i as int], keys[j]));
                    lemma_text_less_transitive(key@, keys[i as int], keys[j]);
                }
            }
            if self@.contains_key(key@) {
                let j = index_of(self.entries@, key@);
                assert(holds(self.entries@, key@, j));
                assert(keys[j] == key@);
                lemma_text_less_irreflexive(key@);
            }
        }
        (false, i)
    }

    /// Whether a key is present.
    pub fn contains_key(&self, key: &str) -> (r: bool)
        ensures
            r == self@.contains_key(key@),
    {
        let (found, i) = self.find(key);
        proof {
            use_type_invariant(self);
            if found {
                lemma_entry(self.entries@, i as int);
            }
        }
        found
    }

    /// The value of a key.
    pub fn get(&self, key: &str) -> (r: Option<&V>)
        ensures
            match r {
                Some(value) => self@.contains_key(key@) && *value == self@[key@],
                None => !self@.contains_key(key@),
            },
    {
        let (found, i) = self.find(key);
        if found {
            proof {
                use_type_invariant(self);
                lemma_entry(self.entries@, i as int);
            }
            Some(&self.entries[i].1)
        } else {
            None
        }
    }

    /// The key at a position of the walk.
    pub fn key_at(&self, i: usize) -> (r: &String)
        requires
            i < self.keys().len(),
        ensures
            r@ == self.keys()[i as int],
            self@.contains_key(r@),
    {
        proof {
            use_type_invariant(self);
            lemma_entry(self.entries@, i as int);
        }
        &self.entries[i].0
    }

    /// The value at a position of the walk.
    pub fn value_at(&self, i: usize) -> (r: &V)
        requires
            i < self.keys().len(),
        ensures
            self@.contains_key(self.keys()[i as int]),
            *r == self@[self.keys()[i as int]],
    {
        proof {
            use_type_invariant(self);
            lemma_entry(self.entries@, i as int);
        }
        &self.entries[i].1
    }

    /// Give a key a value, replacing the one it had.
    pub fn insert(&mut self, key: String, value: V)
        ensures
            final(self)@ == old(self)@.insert(key@, value),
    {
        let (found, i) = self.find(key.as_str());
        proof {
            use_type_invariant(&*self);
        }
        let ghost before = self.entries@;
        let ghost keys = keys_of(before);
        let mut entries: Vec<(String, V)> = Vec::new();
        std::mem::swap(&mut entries, &mut self.entries);
        if found {
            entries.set(i, (key, value));
            proof {
                assert(keys_of(entries@) =~= keys);
                assert(map_of(entries@) =~= map_of(before).insert(key@, value)) by {
                    assert forall|k: Seq<char>| map_of(entries@).contains_key(k) <==> map_of(
                        before,
                    ).insert(key@, value).contains_key(k) by {
                        if map_of(entries@).contains_key(k) {
                            let j = index_of(entries@, k);
                            assert(holds(entries@, k, j));
                            assert(holds(before, k, j));
                        }
                        if map_of(before).contains_key(k) {
                            let j = index_of(before, k);
                            assert(holds(before, k, j));
                            assert(holds(entries@, k, j));
                        }
                        assert(holds(entries@, key@, i as int));
                    }
                    assert forall|k: Seq<char>| map_of(entries@).contains_key(k) implies map_of(
                        entries@,
                    )[k] == map_of(before).insert(key@, value)[k] by {
                        let j = index_of(entries@, k);
                        assert(holds(entries@, k, j));
                        lemma_entry(entries@, j);
                        lemma_entry(before, j);
                        lemma_entry(before, i as int);
                    }
                }
            }
        } else {
            entries.insert(i, (key, value));
            proof {
                let after = entries@;
                assert(keys_of(after) =~= keys.insert(i as int, key@));
                assert(strictly_ascending(keys_of(after)));
                assert(map_of(after) =~= map_of(before).insert(key@, value)) by {
                    assert forall|k: Seq<char>| map_of(after).contains_key(k) <==> map_of(
                        before,
                    ).insert(key@, value).contains_key(k) by {
                        if map_of(after).contains_key(k) {
                            let j = index_of(after, k);
                            assert(holds(after, k, j));
                            if j < i {
                                assert(holds(before, k, j));
                            } else if j > i {
                                assert(holds(before, k, j - 1));
                            }
                        }
                        if map_of(before).contains_key(k) {
                            let j = index_of(before, k);
                            assert(holds(before, k, j));
                            if j < i {
                                assert(holds(after, k, j));
                            } else {
                                assert(holds(after, k, j + 1));
                            }
                        }
                        assert(holds(after, key@, i as int));
                    }
                    assert forall|k: Seq<char>| map_of(after).contains_key(k) implies map_of(
                        after,
                    )[k] == map_of(before).insert(key@, value)[k] by {
                        let j = index_of(after, k);
                        assert(holds(after, k, j));
                        lemma_entry(after, j);
                        if j < i {
                            lemma_entry(before, j);
                        } else if j > i {
                            lemma_entry(before, j - 1);
                        }
                    }
                }
            }
        }
        self.entries = entries;
    }

    /// Forget a key.
    pub fn remove(&mut self, key: &str) -> (r: Option<V>)
        ensures
            final(self)@ == old(self)@.remove(key@),
            match r {
                Some(value) => old(self)@.contains_key(key@) && value == old(self)@[key@],
                None => !old(self)@.contains_key(key@),
            },
    {
        let (found, i) = self.find(key);
        proof {
            use_type_invariant(&*self);
        }
        if !found {
            assert(self@.remove(key@) =~= self@);
            return None;
        }
        let ghost before = self.entries@;
        let ghost keys = keys_of(before);
        let mut entries: Vec<(String, V)> = Vec::new();
        std::mem::swap(&mut entries, &mut self.entries);
        let (_, value) = entries.remove(i);
        proof {
            let after = entries@;
            assert(keys_of(after) =~= keys.remove(i as int));
            assert(strictly_ascending(keys_of(after)));
            lemma_entry(before, i as int);
            assert(map_of(after) =~= map_of(before).remove(key@)) by {
                assert forall|k: Seq<char>| map_of(after).contains_key(k) <==> map_of(before).remove(
                    key@,
                ).contains_key(k) by {
                    if map_of(after).contains_key(k) {
                        let j = index_of(after, k);
                        assert(holds(after, k, j));
                        lemma_entry(before, i as int);
                        if j < i {
                            assert(holds(before, k, j));
                            lemma_entry(before, j);
                        } else {
                            assert(holds(before, k, j + 1));
                            lemma_entry(before, j + 1);
                        }
                    }
                    if map_of(before).contains_key(k) && k != key@ {
                        let j = index_of(before, k);
                        assert(holds(before, k, j));
                        if j < i {
                            assert(holds(after, k, j));
                        } else {
                            assert(holds(after, k, j - 1));
                        }
                    }
                }
                assert forall|k: Seq<char>| map_of(after).contains_key(k) implies map_of(after)[k]
                    == map_of(before).remove(key@)[k] by {
                    let j = index_of(after, k);
                    assert(holds(after, k, j));
                    lemma_entry(after, j);
                    if j < i {
                        lemma_entry(before, j);
                    } else {
                        lemma_entry(before, j + 1);
                    }
                }
            }
        }
        self.entries = entries;
        Some(value)
    }

    /// Forget every key.
    pub fn clear(&mut self)
        ensures
            final(self)@ == Map::<Seq<char>, V>::empty(),
    {
        self.entries = Vec::new();
        assert(self@ =~= Map::<Seq<char>, V>::empty());
    }
}

impl<V: Copy> Clone for TextMap<V> {
    fn clone(&self) -> (r: TextMap<V>)
        ensures
            r@ == self@,
    {
        let mut copy: TextMap<V> = TextMap::new();
        let count: usize = self.len();
        let ghost keys = self.keys();
        for i in 0..count
            invariant
                count == keys.len(),
                keys == self.keys(),
                forall|key: Seq<char>| #[trigger]
                    copy@.contains_key(key) <==> keys.take(i as int).contains(key),
                forall|key: Seq<char>| #[trigger]
                    copy@.contains_key(key) ==> self@.contains_key(key) && copy@[key] == self@[key],
        {
            let ghost before = copy@;
            copy.insert(self.key_at(i).clone(), *self.value_at(i));
            proof {
                let done = keys.take(i as int);
                let next = keys.take(i + 1);
                assert(next =~= done.push(keys[i as int]));
                assert forall|key: Seq<char>| next.contains(key) <==> done.contains(key) || key
                    == keys[i as int] by {
                    if next.contains(key) {
                        let p = choose|p: int| 0 <= p < next.len() && next[p] == key;
                        if p < i {
                            assert(done[p] == key);
                        }
                    }
                    if done.contains(key) {
                        let p = choose|p: int| 0 <= p < done.len() && done[p] == key;
                        assert(next[p] == key);
                    }
                    assert(next[i as int] == keys[i as int]);
                }
            }
        }
        assert(keys.take(count as int) =~= keys);
        assert(copy@ =~= self@) by {
            assert forall|key: Seq<char>| copy@.contains_key(key) <==> self@.contains_key(key) by {
                assert(keys.to_set().contains(key) <==> keys.contains(key));
            }
        }
        copy
    }
}

impl<V> View for TextMap<V> {
    type V = Map<Seq<char>, V>;

    closed spec fn view(&self) -> Map<Seq<char>, V> {
        map_of(self.entries@)
    }
}

}
