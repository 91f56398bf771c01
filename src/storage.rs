//! The page store: hands out fresh page ids and holds each node under its
//! id.

use vstd::prelude::*;
use std::collections::HashMap;
use crate::node::Node;

verus! {

broadcast use vstd::std_specs::hash::group_hash_axioms;

/// Nodes in a hash map keyed by page id. Ids are handed out from a counter
/// that starts at 1; id 0 is kept for the first root.
pub struct StupidHashmapStorage {
    pub last_page_ptr: u64,
    pub map: HashMap<u64, Node>,
}

impl View for StupidHashmapStorage {
    type V = Map<u64, Node>;

    open spec fn view(&self) -> Map<u64, Node> {
        self.map@
    }
}

/// The page store: fresh page ids, and the node held under each id.
pub trait StorageManager {
    /// The node held under each id.
    spec fn pages(&self) -> Map<u64, Node>;

    /// The id that the next call of `new_page` returns.
    spec fn next_page(&self) -> u64;

    /// Returns an id that no earlier call returned.
    fn new_page(&mut self) -> (r: u64)
        requires
            old(self).next_page() < u64::MAX,
        ensures
            r == old(self).next_page(),
            final(self).next_page() == old(self).next_page() + 1,
            final(self).pages() == old(self).pages(),
    ;

    fn read(&self, id: &u64) -> (r: Option<&Node>)
        ensures
            match r {
                Some(n) => self.pages().contains_key(*id) && *n == self.pages()[*id],
                None => !self.pages().contains_key(*id),
            },
    ;

    /// Replaces the node held under `id`.
    fn write(&mut self, id: &u64, node: Node)
        ensures
            final(self).pages() == old(self).pages().insert(*id, node),
            final(self).next_page() == old(self).next_page(),
    ;
}

impl StupidHashmapStorage {
    pub fn new() -> (r: Self)
        ensures
            r@ == Map::<u64, Node>::empty(),
            r.next_page() == 1,
    {
        StupidHashmapStorage { last_page_ptr: 1, map: HashMap::new() }
    }
}

impl StorageManager for StupidHashmapStorage {
    open spec fn pages(&self) -> Map<u64, Node> {
        self@
    }

    open spec fn next_page(&self) -> u64 {
        self.last_page_ptr
    }

    fn new_page(&mut self) -> (r: u64) {
        let r = self.last_page_ptr;
        self.last_page_ptr = self.last_page_ptr + 1;
        r
    }

    fn read(&self, id: &u64) -> (r: Option<&Node>) {
        self.map.get(id)
    }

    fn write(&mut self, id: &u64, node: Node) {
        self.map.insert(*id, node);
    }
}

} // verus!
