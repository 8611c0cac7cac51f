use crate::keys::{StorageKey, StorageKeyView};
use crate::primitives::{zero_bytes, H256};
use crate::vec_map::{entries_map, inserted, VecMap};
use vstd::prelude::*;

verus! {

/// What one finished execution left in the flat store: the value of each key, and
/// the keys that the execution wrote, each with its final value.
#[derive(Clone, Debug)]
pub struct StorageSnapshot {
    initial: VecMap<StorageKey, H256>,
    modified: VecMap<StorageKey, H256>,
}

impl StorageSnapshot {
    /// The values that the store held apart from this execution's writes.
    pub closed spec fn initial_values(&self) -> Map<StorageKeyView, Seq<u8>> {
        self.initial@
    }

    /// The keys that the execution wrote, in the order of their first write, each
    /// with its final value.
    pub closed spec fn modified_entries(&self) -> Seq<(StorageKeyView, Seq<u8>)> {
        self.modified.entries_view()
    }

    /// The writes of the execution as a map.
    pub open spec fn modified_keys(&self) -> Map<StorageKeyView, Seq<u8>> {
        entries_map(self.modified_entries())
    }

    /// The value that a read of the key gives: what the execution wrote there,
    /// else what the store held before, else the zero word.
    pub open spec fn value_at(&self, key: StorageKeyView) -> Seq<u8> {
        if self.modified_keys().contains_key(key) {
            self.modified_keys()[key]
        } else if self.initial_values().contains_key(key) {
            self.initial_values()[key]
        } else {
            zero_bytes(32)
        }
    }

    /// A store in which nothing was written: every key reads as zero.
    pub fn new() -> (storage: StorageSnapshot)
        ensures
            storage.initial_values() == Map::<StorageKeyView, Seq<u8>>::empty(),
            storage.modified_entries() == Seq::<(StorageKeyView, Seq<u8>)>::empty(),
    {
        StorageSnapshot { initial: VecMap::new(), modified: VecMap::new() }
    }

    /// Records a value that the store holds without the execution having written it.
    pub fn set_initial_value(&mut self, key: StorageKey, value: H256)
        ensures
            final(self).initial_values() == old(self).initial_values().insert(key@, value@),
            final(self).modified_entries() == old(self).modified_entries(),
    {
        self.initial.insert(key, value);
    }

    /// Records a write of the execution: the key counts as modified, and the value
    /// is its final value until it is written again.
    pub fn set_value(&mut self, key: StorageKey, value: H256)
        ensures
            final(self).initial_values() == old(self).initial_values(),
            final(self).modified_entries() == inserted(
                old(self).modified_entries(),
                key@,
                value@,
            ),
            final(self).modified_keys() == old(self).modified_keys().insert(key@, value@),
    {
        self.modified.insert(key, value);
    }

    /// Reads the value of a key. A key that was never written reads as zero.
    pub fn read_value(&self, key: &StorageKey) -> (value: H256)
        ensures
            value@ == self.value_at(key@),
    {
        match self.modified.get(key) {
            Some(value) => *value,
            None => match self.initial.get(key) {
                Some(value) => *value,
                None => H256::zero(),
            },
        }
    }

    /// The keys that the execution wrote, each with its final value.
    pub fn modified_storage_keys(&self) -> (modified: &VecMap<StorageKey, H256>)
        ensures
            modified.entries_view() == self.modified_entries(),
    {
        &self.modified
    }
}

} // verus!
