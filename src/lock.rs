//! The lock table: exclusive, advisory locks keyed by page id.

use vstd::prelude::*;
use std::collections::HashSet;

verus! {

broadcast use vstd::std_specs::hash::group_hash_axioms;

/// A table of exclusive locks keyed by page id.
pub trait LockManager {
    /// The ids whose lock is held.
    spec fn held(&self) -> Set<u64>;

    /// Takes the lock on `id`. A lock is exclusive: it is taken only where
    /// nobody holds it.
    fn lock(&mut self, id: u64)
        requires
            !old(self).held().contains(id),
        ensures
            final(self).held() == old(self).held().insert(id),
    ;

    /// Releases the lock on `id`.
    fn unlock(&mut self, id: &u64)
        ensures
            final(self).held() == old(self).held().remove(*id),
    ;
}

/// The set of page ids whose lock is held.
pub struct SimpleLockManager {
    pub set: HashSet<u64>,
}

impl View for SimpleLockManager {
    type V = Set<u64>;

    open spec fn view(&self) -> Set<u64> {
        self.set@
    }
}

impl SimpleLockManager {
    pub fn new() -> (r: Self)
        ensures
            r@ == Set::<u64>::empty(),
    {
        SimpleLockManager { set: HashSet::new() }
    }
}

impl LockManager for SimpleLockManager {
    open spec fn held(&self) -> Set<u64> {
        self@
    }

    fn lock(&mut self, id: u64) {
        self.set.insert(id);
    }

    fn unlock(&mut self, id: &u64) {
        self.set.remove(id);
    }
}

} // verus!
