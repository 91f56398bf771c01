//! The ordered map that the tree offers to its users.

use vstd::prelude::*;
use crate::blinktree::BTree;

verus! {

/// An ordered map from `u64` keys to `u64` values.
pub trait PersistentMap {
    /// The map is in a state where its operations may be called.
    spec fn map_wf(&self) -> bool;

    /// The map has room for one more entry.
    spec fn map_room(&self) -> bool;

    /// The entries of the map.
    spec fn entries(&self) -> Map<u64, u64>;

    /// What the map binds `key` to.
    fn find(&self, key: &u64) -> (r: Option<u64>)
        requires
            self.map_wf(),
        ensures
            r == (if self.entries().contains_key(*key) {
                Some(self.entries()[*key])
            } else {
                None
            }),
    ;

    fn contains_key(&self, key: &u64) -> (r: bool)
        requires
            self.map_wf(),
        ensures
            r == self.entries().contains_key(*key),
    ;

    /// Binds `key` to `value`.
    fn insert(&mut self, key: u64, value: u64)
        requires
            old(self).map_wf(),
            old(self).map_room(),
        ensures
            final(self).map_wf(),
            final(self).entries() == old(self).entries().insert(key, value),
    ;
}

impl PersistentMap for BTree {
    open spec fn map_wf(&self) -> bool {
        self.wf()
    }

    open spec fn map_room(&self) -> bool {
        self.has_room()
    }

    open spec fn entries(&self) -> Map<u64, u64> {
        self@
    }

    fn find(&self, key: &u64) -> (r: Option<u64>) {
        BTree::find(self, key)
    }

    fn contains_key(&self, key: &u64) -> (r: bool) {
        BTree::contains_key(self, key)
    }

    fn insert(&mut self, key: u64, value: u64) {
        BTree::insert(self, key, value)
    }
}

} // verus!
