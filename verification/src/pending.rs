//! The table of requests that await a response, keyed by request id.

use std::collections::BTreeMap;
use vstd::prelude::*;

verus! {

broadcast use {vstd::std_specs::btree::group_btree_axioms, vstd::laws_cmp::group_laws_cmp};

/// What completes each request that awaits a response, by the id of the
/// request.
pub struct Pending<C> {
    map: BTreeMap<u64, C>,
}

impl<C> View for Pending<C> {
    type V = Map<u64, C>;

    closed spec fn view(&self) -> Map<u64, C> {
        self.map@
    }
}

impl<C> Pending<C> {
    /// An empty table.
    pub fn new() -> (table: Self)
        ensures
            table@ == Map::<u64, C>::empty(),
    {
        Pending { map: BTreeMap::new() }
    }

    /// Keeps `callback` under `id`, in place of what was kept under it.
    pub fn insert(&mut self, id: u64, callback: C)
        ensures
            final(self)@ == old(self)@.insert(id, callback),
    {
        self.map.insert(id, callback);
    }

    /// Takes out what is kept under `id`.
    pub fn remove(&mut self, id: u64) -> (callback: Option<C>)
        ensures
            final(self)@ == old(self)@.remove(id),
            callback == if old(self)@.contains_key(id) {
                Some(old(self)@[id])
            } else {
                None
            },
    {
        self.map.remove(&id)
    }

    /// The number of requests that await a response.
    pub fn len(&self) -> (n: usize)
        ensures
            n == self@.len(),
            self@.dom().finite(),
    {
        self.map.len()
    }
}

} // verus!
