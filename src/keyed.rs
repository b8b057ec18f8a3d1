use vstd::prelude::*;

use std::collections::BTreeMap;

use crate::registry::{SliceKey, SliceStorage};
use crate::slice::Slice;

verus! {

broadcast use {vstd::std_specs::btree::group_btree_axioms, vstd::laws_cmp::group_laws_cmp};

/// A registry of spans under keys that the caller's own slot map issued.
/// It is ordered by the whole key, version included, so two versions of
/// one slot are two different keys.
pub struct KeyedRanges {
    map: BTreeMap<u64, Slice>,
}

impl KeyedRanges {
    /// Whether `key` holds a span.
    pub fn contains(&self, key: SliceKey) -> (r: bool)
        ensures
            r == self.ranges().contains_key(key@),
    {
        self.map.contains_key(&key.to_bits())
    }

    /// Puts `value` under `key`, in place of any span it held.
    pub fn insert(&mut self, key: SliceKey, value: Slice)
        ensures
            final(self).ranges() == old(self).ranges().insert(key@, value),
    {
        let _ = self.map.insert(key.to_bits(), value);
    }
}

/// The registry under caller-issued keys.
impl SliceStorage for KeyedRanges {
    closed spec fn ranges(&self) -> Map<u64, Slice> {
        self.map@
    }

    /// Keys come from the caller, who may add one again after removing
    /// it: this registry retires none.
    open spec fn consistent(&self) -> bool {
        true
    }

    open spec fn retired(&self, k: u64) -> bool {
        false
    }

    open spec fn may_return(&self, k: u64) -> bool {
        true
    }

    proof fn lemma_retired_not_live(&self, k: u64) {
    }

    fn empty() -> (r: Self) {
        let r = KeyedRanges { map: BTreeMap::new() };
        assert(r.map@.dom() =~= Set::<u64>::empty());
        r
    }

    fn len(&self) -> (r: usize) {
        self.map.len()
    }

    fn clear(&mut self) {
        self.map.clear();
        assert(self.map@.dom() =~= Set::<u64>::empty());
    }

    fn is_empty(&self) -> (r: bool) {
        self.map.len() == 0
    }

    fn get(&self, key: SliceKey) -> (r: Option<Slice>) {
        match self.map.get(&key.to_bits()) {
            Some(s) => Some(*s),
            None => None,
        }
    }

    fn remove(&mut self, key: SliceKey) -> (r: Option<Slice>) {
        self.map.remove(&key.to_bits())
    }

    fn set(&mut self, key: u64, value: Slice) {
        let _ = self.map.insert(key, value);
    }
}

} // verus!
