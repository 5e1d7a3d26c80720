//! Per-viewer auxiliary storage and helpers built on it.
//!
//! The host application can keep viewer-specific data across ticks in a
//! small registry addressed by numeric keys; it is owned by one session
//! and never shared across sessions.

use vstd::prelude::*;

use std::collections::HashMap;

verus! {

broadcast use vstd::std_specs::hash::group_hash_axioms;

/// A per-session registry of plain values under numeric keys.
pub struct AuxStore<V> {
    map: HashMap<u64, V>,
}

impl<V: Copy> AuxStore<V> {
    /// The registry's contents.
    pub closed spec fn view(&self) -> Map<u64, V> {
        self.map@
    }

    /// An empty registry.
    pub fn new() -> (r: AuxStore<V>)
        ensures
            r@ == Map::<u64, V>::empty(),
    {
        AuxStore { map: HashMap::new() }
    }

    /// The value stored under `key`, if any.
    pub fn get(&self, key: u64) -> (r: Option<V>)
        ensures
            match r {
                Some(v) => self@.contains_key(key) && v == self@[key],
                None => !self@.contains_key(key),
            },
    {
        match self.map.get(&key) {
            Some(v) => Some(*v),
            None => None,
        }
    }

    /// Stores `v` under `key`, replacing any previous value.
    pub fn set(&mut self, key: u64, v: V)
        ensures
            final(self)@ == old(self)@.insert(key, v),
    {
        self.map.insert(key, v);
    }
}

/// The registry key under which a viewer's assigned index is kept.
pub const CLIENT_IDX_KEY: u64 = 0x636c69656e745f69;

/// Hands each viewer a small stable index: the first call for a session
/// assigns the next free index and records it in that session's registry;
/// later calls return the recorded one.
pub struct ClientIdentifier {
    pub next_idx: usize,
}

impl ClientIdentifier {
    /// A fresh identifier source, counting from zero.
    pub fn new() -> (r: ClientIdentifier)
        ensures
            r.next_idx == 0,
    {
        ClientIdentifier { next_idx: 0 }
    }

    /// The index assigned to the session owning `store`: the recorded one
    /// if present, else the next free index, which is then recorded.
    pub fn get_idx(&mut self, store: &mut AuxStore<usize>) -> (r: usize)
        requires
            old(self).next_idx < usize::MAX,
        ensures
            if old(store)@.contains_key(CLIENT_IDX_KEY) {
                &&& r == old(store)@[CLIENT_IDX_KEY]
                &&& *final(store) == *old(store)
                &&& *final(self) == *old(self)
            } else {
                &&& r == old(self).next_idx
                &&& final(self).next_idx == old(self).next_idx + 1
                &&& final(store)@ == old(store)@.insert(CLIENT_IDX_KEY, r)
            },
    {
        match store.get(CLIENT_IDX_KEY) {
            Some(idx) => idx,
            None => {
                let idx = self.next_idx;
                self.next_idx += 1;
                store.set(CLIENT_IDX_KEY, idx);
                idx
            },
        }
    }
}

} // verus!
