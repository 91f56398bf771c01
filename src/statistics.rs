//! Monotonic counters of the tree: entries, interior nodes, leaves,
//! insertions and deletions.

use vstd::prelude::*;

verus! {

/// One more, except at the largest value, where the counter stays.
pub open spec fn bumped(x: usize) -> usize {
    if x < usize::MAX {
        (x + 1) as usize
    } else {
        x
    }
}

/// `n` more, except that the counter stops at the largest value.
pub open spec fn bumped_n(x: usize, n: nat) -> usize {
    if x + n <= usize::MAX {
        (x + n) as usize
    } else {
        usize::MAX
    }
}

/// One less, except at zero, where the counter stays.
pub open spec fn dropped(x: usize) -> usize {
    if x > 0 {
        (x - 1) as usize
    } else {
        x
    }
}

/// The values of the counters.
pub struct Counters {
    pub elements: usize,
    pub inodes: usize,
    pub leafs: usize,
    pub insertions: usize,
    pub deletions: usize,
}

/// Monotonic counters: each one goes up or down by one, and stays put at
/// the end of its range.
pub trait StatisticsManager {
    spec fn counters(&self) -> Counters;

    fn elements(&self) -> (r: usize)
        ensures
            r == self.counters().elements,
    ;

    fn inc_elements(&mut self)
        ensures
            final(self).counters() == (Counters {
                elements: bumped(old(self).counters().elements),
                ..old(self).counters()
            }),
    ;

    fn dec_elements(&mut self)
        ensures
            final(self).counters() == (Counters {
                elements: dropped(old(self).counters().elements),
                ..old(self).counters()
            }),
    ;

    fn inodes(&self) -> (r: usize)
        ensures
            r == self.counters().inodes,
    ;

    fn inc_inodes(&mut self)
        ensures
            final(self).counters() == (Counters {
                inodes: bumped(old(self).counters().inodes),
                ..old(self).counters()
            }),
    ;

    fn dec_inodes(&mut self)
        ensures
            final(self).counters() == (Counters {
                inodes: dropped(old(self).counters().inodes),
                ..old(self).counters()
            }),
    ;

    fn leafs(&self) -> (r: usize)
        ensures
            r == self.counters().leafs,
    ;

    fn inc_leafs(&mut self)
        ensures
            final(self).counters() == (Counters {
                leafs: bumped(old(self).counters().leafs),
                ..old(self).counters()
            }),
    ;

    fn dec_leafs(&mut self)
        ensures
            final(self).counters() == (Counters {
                leafs: dropped(old(self).counters().leafs),
                ..old(self).counters()
            }),
    ;

    fn deletions(&self) -> (r: usize)
        ensures
            r == self.counters().deletions,
    ;

    fn inc_deletions(&mut self)
        ensures
            final(self).counters() == (Counters {
                deletions: bumped(old(self).counters().deletions),
                ..old(self).counters()
            }),
    ;

    fn insertions(&self) -> (r: usize)
        ensures
            r == self.counters().insertions,
    ;

    fn inc_insertions(&mut self)
        ensures
            final(self).counters() == (Counters {
                insertions: bumped(old(self).counters().insertions),
                ..old(self).counters()
            }),
    ;
}

pub struct AtomicStatistics {
    pub elements: usize,
    pub inodes: usize,
    pub leafs: usize,
    pub insertions: usize,
    pub deletions: usize,
}

fn bump(x: &mut usize)
    ensures
        *final(x) == bumped(*old(x)),
{
    if *x < usize::MAX {
        *x = *x + 1;
    }
}

fn drop_one(x: &mut usize)
    ensures
        *final(x) == dropped(*old(x)),
{
    if *x > 0 {
        *x = *x - 1;
    }
}

impl AtomicStatistics {
    pub fn new() -> (r: Self)
        ensures
            r.counters() == (Counters {
                elements: 0,
                inodes: 0,
                leafs: 0,
                insertions: 0,
                deletions: 0,
            }),
    {
        AtomicStatistics { elements: 0, inodes: 0, leafs: 0, insertions: 0, deletions: 0 }
    }
}

impl StatisticsManager for AtomicStatistics {
    open spec fn counters(&self) -> Counters {
        Counters {
            elements: self.elements,
            inodes: self.inodes,
            leafs: self.leafs,
            insertions: self.insertions,
            deletions: self.deletions,
        }
    }

    fn elements(&self) -> (r: usize) {
        self.elements
    }

    fn inc_elements(&mut self) {
        bump(&mut self.elements);
    }

    fn dec_elements(&mut self) {
        drop_one(&mut self.elements);
    }

    fn inodes(&self) -> (r: usize) {
        self.inodes
    }

    fn inc_inodes(&mut self) {
        bump(&mut self.inodes);
    }

    fn dec_inodes(&mut self) {
        drop_one(&mut self.inodes);
    }

    fn leafs(&self) -> (r: usize) {
        self.leafs
    }

    fn inc_leafs(&mut self) {
        bump(&mut self.leafs);
    }

    fn dec_leafs(&mut self) {
        drop_one(&mut self.leafs);
    }

    fn deletions(&self) -> (r: usize) {
        self.deletions
    }

    fn inc_deletions(&mut self) {
        bump(&mut self.deletions);
    }

    fn insertions(&self) -> (r: usize) {
        self.insertions
    }

    fn inc_insertions(&mut self) {
        bump(&mut self.insertions);
    }
}

} // verus!
