use vstd::prelude::*;
use vstd::std_specs::cmp::PartialEqSpecImpl;

verus! {

/// A type whose values can be compared when the program runs: two values are the
/// same exactly when their views are equal.
pub trait ViewEq: View + Sized {
    fn same(&self, other: &Self) -> (same: bool)
        ensures
            same == (self@ == other@),
    ;
}

/// Whether some entry of the list has the given key.
pub open spec fn has_key<K, V>(entries: Seq<(K, V)>, key: K) -> bool {
    exists|i: int| 0 <= i < entries.len() && (#[trigger] entries[i]).0 == key
}

/// Whether no two entries of the list share a key.
pub open spec fn distinct_keys<K, V>(entries: Seq<(K, V)>) -> bool {
    forall|i: int, j: int|
        0 <= i < j < entries.len() ==> (#[trigger] entries[i]).0 != (#[trigger] entries[j]).0
}

/// The place of an entry with the given key, where there is one.
pub open spec fn position<K, V>(entries: Seq<(K, V)>, key: K) -> int {
    choose|i: int| 0 <= i < entries.len() && (#[trigger] entries[i]).0 == key
}

/// The map that a list of entries stands for.
pub open spec fn entries_map<K, V>(entries: Seq<(K, V)>) -> Map<K, V> {
    Map::new(|key: K| has_key(entries, key), |key: K| entries[position(entries, key)].1)
}

/// The list after an insertion: an entry with the same key is replaced where it
/// stands, a new key is added at the end.
pub open spec fn inserted<K, V>(entries: Seq<(K, V)>, key: K, value: V) -> Seq<(K, V)> {
    if has_key(entries, key) {
        entries.update(position(entries, key), (key, value))
    } else {
        entries.push((key, value))
    }
}

/// In a list with distinct keys, the place of a key is the place of its entry.
pub proof fn lemma_position<K, V>(entries: Seq<(K, V)>, i: int)
    requires
        distinct_keys(entries),
        0 <= i < entries.len(),
    ensures
        has_key(entries, entries[i].0),
        position(entries, entries[i].0) == i,
        entries_map(entries).contains_key(entries[i].0),
        entries_map(entries)[entries[i].0] == entries[i].1,
{
    let j = position(entries, entries[i].0);
    assert(0 <= j < entries.len() && entries[j].0 == entries[i].0);
}

/// Replacing the value of an entry changes the map at that key only.
pub proof fn lemma_update<K, V>(entries: Seq<(K, V)>, i: int, value: V)
    requires
        distinct_keys(entries),
        0 <= i < entries.len(),
    ensures
        inserted(entries, entries[i].0, value) == entries.update(i, (entries[i].0, value)),
        distinct_keys(inserted(entries, entries[i].0, value)),
        entries_map(inserted(entries, entries[i].0, value)) == entries_map(entries).insert(
            entries[i].0,
            value,
        ),
{
    let key = entries[i].0;
    let after = entries.update(i, (key, value));
    lemma_position(entries, i);
    assert(distinct_keys(after)) by {
        assert forall|a: int, b: int| 0 <= a < b < after.len() implies (#[trigger] after[a]).0 != (
        #[trigger] after[b]).0 by {
            assert(after[a].0 == entries[a].0);
            assert(after[b].0 == entries[b].0);
        }
    }
    assert(entries_map(after) =~= entries_map(entries).insert(key, value)) by {
        assert forall|k: K| has_key(after, k) <==> has_key(entries, k) by {
            if has_key(after, k) {
                let j = position(after, k);
                assert(entries[j].0 == k);
            }
            if has_key(entries, k) {
                let j = position(entries, k);
                assert(after[j].0 == k);
            }
        }
        assert forall|k: K| has_key(after, k) implies #[trigger] entries_map(after)[k]
            == entries_map(entries).insert(key, value)[k] by {
            let j = position(after, k);
            lemma_position(after, j);
            if k != key {
                assert(entries[j].0 == k);
                lemma_position(entries, j);
            } else {
                assert(j == i);
            }
        }
    }
}

/// Adding an entry with a new key adds that key to the map.
pub proof fn lemma_push<K, V>(entries: Seq<(K, V)>, key: K, value: V)
    requires
        distinct_keys(entries),
        !has_key(entries, key),
    ensures
        inserted(entries, key, value) == entries.push((key, value)),
        distinct_keys(inserted(entries, key, value)),
        entries_map(inserted(entries, key, value)) == entries_map(entries).insert(key, value),
{
    let after = entries.push((key, value));
    assert(distinct_keys(after)) by {
        assert forall|a: int, b: int| 0 <= a < b < after.len() implies (#[trigger] after[a]).0 != (
        #[trigger] after[b]).0 by {
            assert(after[a] == entries[a]);
            if b < entries.len() {
                assert(after[b] == entries[b]);
            }
        }
    }
    assert(entries_map(after) =~= entries_map(entries).insert(key, value)) by {
        assert(after[entries.len() as int].0 == key);
        assert forall|k: K| has_key(after, k) <==> (has_key(entries, k) || k == key) by {
            if has_key(after, k) {
                let j = position(after, k);
                if j < entries.len() {
                    assert(entries[j].0 == k);
                }
            }
            if has_key(entries, k) {
                let j = position(entries, k);
                assert(after[j].0 == k);
            }
        }
        assert forall|k: K| has_key(after, k) implies #[trigger] entries_map(after)[k]
            == entries_map(entries).insert(key, value)[k] by {
            let j = position(after, k);
            lemma_position(after, j);
            if k != key {
                assert(entries[j].0 == k);
                lemma_position(entries, j);
            } else {
                lemma_position(after, entries.len() as int);
            }
        }
    }
}

/// Whether every key of the first map is a key of the second, with the same value.
pub open spec fn included<K, V>(first: Map<K, V>, second: Map<K, V>) -> bool {
    forall|key: K| #[trigger]
        first.contains_key(key) ==> second.contains_key(key) && second[key] == first[key]
}

/// The views of a list of entries, pair by pair.
pub open spec fn entry_views<K: View, V: View>(entries: Seq<(K, V)>) -> Seq<(K::V, V::V)> {
    entries.map_values(|entry: (K, V)| (entry.0@, entry.1@))
}

/// A map kept as a list of entries with distinct keys, in the order in which the
/// keys were first inserted.
#[derive(Debug)]
pub struct VecMap<K: ViewEq, V: View> {
    entries: Vec<(K, V)>,
}

impl<K: ViewEq, V: View> View for VecMap<K, V> {
    type V = Map<K::V, V::V>;

    open spec fn view(&self) -> Map<K::V, V::V> {
        entries_map(self.entries_view())
    }
}

impl<K: ViewEq, V: View> VecMap<K, V> {
    /// The entries in order, as they are held.
    pub closed spec fn entries(&self) -> Seq<(K, V)> {
        self.entries@
    }

    /// The entries in order, each key and value by its view.
    pub open spec fn entries_view(&self) -> Seq<(K::V, V::V)> {
        entry_views(self.entries())
    }

    /// Every value of this type holds each key once.
    #[verifier::type_invariant]
    pub open spec fn well_formed(self) -> bool {
        distinct_keys(self.entries_view())
    }

    /// A map without entries.
    pub fn new() -> (map: Self)
        ensures
            map.entries_view() == Seq::<(K::V, V::V)>::empty(),
            map@ == Map::<K::V, V::V>::empty(),
    {
        let map = VecMap { entries: Vec::new() };
        assert(map.entries_view() =~= Seq::<(K::V, V::V)>::empty());
        assert(map@ =~= Map::<K::V, V::V>::empty());
        map
    }

    /// The number of entries.
    pub fn len(&self) -> (len: usize)
        ensures
            len == self.entries_view().len(),
    {
        self.entries.len()
    }

    /// The key of the entry at a place in the list.
    pub fn key_at(&self, i: usize) -> (key: &K)
        requires
            i < self.entries_view().len(),
        ensures
            key@ == self.entries_view()[i as int].0,
    {
        &self.entries[i].0
    }

    /// The value of the entry at a place in the list.
    pub fn value_at(&self, i: usize) -> (value: &V)
        requires
            i < self.entries_view().len(),
        ensures
            value@ == self.entries_view()[i as int].1,
    {
        &self.entries[i].1
    }

    fn find(&self, key: &K) -> (found: Option<usize>)
        ensures
            match found {
                Some(i) => i < self.entries_view().len() && self.entries_view()[i as int].0
                    == key@,
                None => !has_key(self.entries_view(), key@),
            },
    {
        let mut i: usize = 0;
        while i < self.entries.len()
            invariant
                i <= self.entries.len(),
                forall|j: int| 0 <= j < i ==> (#[trigger] self.entries_view()[j]).0 != key@,
            decreases self.entries.len() - i,
        {
            if self.entries[i].0.same(key) {
                return Some(i);
            }
            i = i + 1;
        }
        None
    }

    /// Whether the map has an entry for the key.
    pub fn contains_key(&self, key: &K) -> (found: bool)
        ensures
            found == self@.contains_key(key@),
    {
        self.find(key).is_some()
    }

    /// The value that the map holds for the key.
    pub fn get(&self, key: &K) -> (value: Option<&V>)
        ensures
            match value {
                Some(v) => self@.contains_key(key@) && self@[key@] == v@,
                None => !self@.contains_key(key@),
            },
    {
        proof {
            use_type_invariant(self);
        }
        match self.find(key) {
            Some(i) => {
                proof {
                    lemma_position(self.entries_view(), i as int);
                }
                Some(&self.entries[i].1)
            },
            None => None,
        }
    }

    /// Sets the value for a key: in place where the key is present, at the end
    /// where it is new.
    pub fn insert(&mut self, key: K, value: V)
        ensures
            final(self).entries_view() == inserted(old(self).entries_view(), key@, value@),
            final(self)@ == old(self)@.insert(key@, value@),
            final(self).entries_view().len() == if old(self)@.contains_key(key@) {
                old(self).entries_view().len()
            } else {
                old(self).entries_view().len() + 1
            },
    {
        proof {
            use_type_invariant(&*self);
        }
        let found = self.find(&key);
        let ghost before = self.entries_view();
        let mut entries = Vec::new();
        std::mem::swap(&mut entries, &mut self.entries);
        match found {
            Some(i) => {
                proof {
                    lemma_update(before, i as int, value@);
                    assert(entry_views(entries@.update(i as int, (key, value))) =~= before.update(
                        i as int,
                        (key@, value@),
                    ));
                }
                entries.set(i, (key, value));
            },
            None => {
                proof {
                    lemma_push(before, key@, value@);
                    assert(entry_views(entries@.push((key, value))) =~= before.push(
                        (key@, value@),
                    ));
                }
                entries.push((key, value));
            },
        }
        self.entries = entries;
    }
}

impl<K: ViewEq + Copy, V: View + Clone> Clone for VecMap<K, V> {
    /// A map with the same keys in the same order, each value cloned.
    fn clone(&self) -> (copy: Self)
        ensures
            copy.entries().len() == self.entries().len(),
            forall|i: int|
                0 <= i < self.entries().len() ==> (#[trigger] copy.entries()[i]).0
                    == self.entries()[i].0,
            forall|i: int|
                0 <= i < self.entries().len() ==> cloned::<V>(
                    self.entries()[i].1,
                    (#[trigger] copy.entries()[i]).1,
                ),
    {
        proof {
            use_type_invariant(self);
        }
        let mut entries: Vec<(K, V)> = Vec::new();
        let mut i: usize = 0;
        while i < self.entries.len()
            invariant
                i <= self.entries.len(),
                entries.len() == i,
                forall|j: int| 0 <= j < i ==> (#[trigger] entries@[j]).0 == self.entries@[j].0,
                forall|j: int|
                    0 <= j < i ==> cloned::<V>(self.entries@[j].1, (#[trigger] entries@[j]).1),
            decreases self.entries.len() - i,
        {
            let value = self.entries[i].1.clone();
            entries.push((self.entries[i].0, value));
            i = i + 1;
        }
        proof {
            let ours = self.entries_view();
            let theirs = entry_views(entries@);
            assert forall|a: int, b: int| 0 <= a < b < theirs.len() implies (#[trigger] theirs[a]).0
                != (#[trigger] theirs[b]).0 by {
                assert(theirs[a].0 == ours[a].0);
                assert(theirs[b].0 == ours[b].0);
            }
        }
        VecMap { entries }
    }
}

impl<K: ViewEq, V: ViewEq> VecMap<K, V> {
    fn included_in(&self, other: &Self) -> (all: bool)
        ensures
            all == included(self@, other@),
    {
        proof {
            use_type_invariant(self);
        }
        let ghost ours = self.entries_view();
        let mut i: usize = 0;
        while i < self.entries.len()
            invariant
                ours == self.entries_view(),
                distinct_keys(ours),
                i <= ours.len(),
                forall|j: int|
                    0 <= j < i ==> other@.contains_key((#[trigger] ours[j]).0) && other@[ours[j].0]
                        == ours[j].1,
            decreases ours.len() - i,
        {
            proof {
                lemma_position(ours, i as int);
            }
            let same = match other.get(&self.entries[i].0) {
                Some(value) => value.same(&self.entries[i].1),
                None => false,
            };
            if !same {
                assert(self@.contains_key(ours[i as int].0));
                assert(self@[ours[i as int].0] == ours[i as int].1);
                return false;
            }
            i = i + 1;
        }
        proof {
            assert forall|key: K::V| #[trigger] self@.contains_key(key) implies other@.contains_key(
                key,
            ) && other@[key] == self@[key] by {
                let j = position(ours, key);
                lemma_position(ours, j);
            }
        }
        true
    }
}

impl<K: ViewEq, V: ViewEq> ViewEq for VecMap<K, V> {
    /// Whether the two maps hold the same keys with the same values, in whatever
    /// order.
    fn same(&self, other: &Self) -> (same: bool) {
        let same = self.included_in(other) && other.included_in(self);
        proof {
            if same {
                assert forall|key: K::V| self@.contains_key(key) == other@.contains_key(key) by {
                    if other@.contains_key(key) {
                        assert(self@.contains_key(key));
                    }
                }
                assert(self@ =~= other@);
            }
        }
        same
    }
}

impl<K: ViewEq, V: ViewEq> PartialEq for VecMap<K, V> {
    fn eq(&self, other: &Self) -> (equal: bool) {
        self.same(other)
    }
}

impl<K: ViewEq, V: ViewEq> PartialEqSpecImpl for VecMap<K, V> {
    open spec fn obeys_eq_spec() -> bool {
        true
    }

    open spec fn eq_spec(&self, other: &Self) -> bool {
        self@ == other@
    }
}

impl<K: ViewEq, V: ViewEq> Eq for VecMap<K, V> {

}

} // verus!
