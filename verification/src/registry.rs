//! The table of requests in flight and its mathematical model.

use std::collections::HashMap;
use vstd::prelude::*;

verus! {

broadcast use vstd::std_specs::hash::group_hash_axioms;

/// The table after the request `handle` has started with identifier `id`:
/// whatever stood under `handle` before is overwritten.
pub open spec fn started(table: Map<usize, u64>, handle: usize, id: u64) -> Map<usize, u64> {
    table.insert(handle, id)
}

/// The table after the request `handle` has ended: its entry is gone, whether
/// or not there was one.
pub open spec fn ended(table: Map<usize, u64>, handle: usize) -> Map<usize, u64> {
    table.remove(handle)
}

/// The identifier that `table` holds for `handle`, if it holds one.
pub open spec fn assigned(table: Map<usize, u64>, handle: usize) -> Option<u64> {
    if table.contains_key(handle) {
        Some(table[handle])
    } else {
        None
    }
}

/// The requests in flight, each handle with the identifier drawn for it.
///
/// Its view is the map from handle to identifier.
pub struct Registry {
    entries: HashMap<usize, u64>,
}

impl View for Registry {
    type V = Map<usize, u64>;

    closed spec fn view(&self) -> Map<usize, u64> {
        self.entries@
    }
}

impl Registry {
    /// A registry with no request in flight.
    pub fn new() -> (registry: Self)
        ensures
            registry@ == Map::<usize, u64>::empty(),
    {
        Registry { entries: HashMap::new() }
    }

    /// Records `id` for `handle`, in place of any entry that `handle` had.
    pub fn insert(&mut self, handle: usize, id: u64)
        ensures
            final(self)@ == started(old(self)@, handle, id),
    {
        self.entries.insert(handle, id);
    }

    /// Drops the entry of `handle`; does nothing where there is none.
    pub fn remove(&mut self, handle: usize)
        ensures
            final(self)@ == ended(old(self)@, handle),
    {
        self.entries.remove(&handle);
    }

    /// The identifier recorded for `handle`, if there is one.
    pub fn get(&self, handle: usize) -> (id: Option<u64>)
        ensures
            id == assigned(self@, handle),
    {
        match self.entries.get(&handle) {
            Some(id) => Some(*id),
            None => None,
        }
    }

    /// The number of requests in flight.
    pub fn len(&self) -> (n: usize)
        ensures
            n == self@.len(),
    {
        self.entries.len()
    }

    /// A registry never holds more than finitely many requests.
    pub proof fn lemma_finite(&self)
        ensures
            self@.dom().finite(),
    {
    }
}

} // verus!
