//! Nodes that do not record whether they are the root: the caller passes
//! that position as a state word to each operation that depends on it.

use vstd::prelude::*;
use crate::algorithm::{bsearch_idx, lemma_lower_bound, lower_bound};
use crate::blink_ops::{
    can_contain, inode_get, leaf_get, leaf_inserted, leaf_shape, lemma_strictly_sorted,
    spec_move_right,
};
use crate::physical_node::{NodeView, T_ROOT, strictly_sorted};
use crate::utils;

verus! {

/// The state bit of the root.
pub const ROOT: u8 = 1;

/// `state` holds every bit of `s`.
pub open spec fn in_state(state: u8, s: u8) -> bool {
    state & s == s
}

pub fn is_in_state(state: u8, s: u8) -> (r: bool)
    ensures
        r == in_state(state, s),
{
    state & s == s
}

/// How a scan leaves a node.
#[derive(PartialEq, Eq, Structural, Clone, Copy, Debug)]
pub enum Movement {
    Right,
    Down,
    MostLeftDown,
    MostRightDown,
}

/// The raw fields of a node: its page id, keys, values and right link.
pub struct SimpleBLinkRawNode {
    pub my_ptr: u64,
    pub keys: Vec<u64>,
    pub values: Vec<u64>,
    pub right: Option<u64>,
}

impl SimpleBLinkRawNode {
    /// The node seen with the flags that `state` gives it.
    pub open spec fn at(&self, state: u8) -> NodeView {
        NodeView {
            node_type: if in_state(state, ROOT) {
                T_ROOT
            } else {
                0
            },
            my_ptr: self.my_ptr,
            keys: self.keys@,
            values: self.values@,
            link_ptr: self.right,
        }
    }

    pub fn new(ptr: u64, right: Option<u64>, keys: Vec<u64>, values: Vec<u64>) -> (r: Self)
        ensures
            r.my_ptr == ptr,
            r.right == right,
            r.keys@ == keys@,
            r.values@ == values@,
    {
        SimpleBLinkRawNode { my_ptr: ptr, keys, values, right }
    }

    pub fn my_ptr(&self) -> (r: u64)
        ensures
            r == self.my_ptr,
    {
        self.my_ptr
    }

    pub fn link_ptr(&self) -> (r: Option<u64>)
        ensures
            r == self.right,
    {
        self.right
    }

    pub fn max_key(&self) -> (r: u64)
        requires
            self.keys@.len() > 0,
        ensures
            r == self.keys@.last(),
    {
        self.keys[self.keys.len() - 1]
    }

    pub fn min_key(&self) -> (r: u64)
        requires
            self.keys@.len() > 0,
        ensures
            r == self.keys@[0],
    {
        self.keys[0]
    }

    pub fn size(&self) -> (r: usize)
        ensures
            r == self.keys@.len(),
    {
        self.keys.len()
    }

    /// The node may hold `key` in the position that `state` gives it.
    pub fn can_contain_key(&self, state: u8, key: &u64) -> (r: bool)
        ensures
            r == can_contain(self.at(state), *key),
    {
        if is_in_state(state, ROOT) {
            proof {
                assert(1u64 & 1u64 == 1u64) by (bit_vector);
            }
            return true;
        }
        proof {
            assert(0u64 & 1u64 != 1u64) by (bit_vector);
        }
        if self.keys.len() == 0 {
            return self.right.is_none();
        }
        let max = self.max_key();
        (self.right.is_none() && *key > max) || *key <= max
    }
}

/// An interior node whose child for any key it can hold is in range in the
/// position that `state` gives it: sorted keys, and a child more than keys
/// where the node is the root or rightmost.
pub open spec fn simple_inode_shape(n: NodeView) -> bool {
    &&& strictly_sorted(n.keys)
    &&& n.values.len() >= n.keys.len() + if n.link_ptr is None || n.node_type == T_ROOT {
        1int
    } else {
        0int
    }
}

/// Where an interior node puts the child that comes with a new separator:
/// right of it in the root or the rightmost node, else at the separator.
pub open spec fn child_slot(n: NodeView, key: u64) -> int {
    lower_bound(n.keys, key) + if n.node_type == T_ROOT || n.link_ptr is None {
        1int
    } else {
        0int
    }
}

/// The keys and values after `key` and `value` go in: a leaf binds the
/// key, an interior node adds the separator and its child.
pub open spec fn simple_inserted(leaf: bool, n: NodeView, key: u64, value: u64) -> (Seq<u64>, Seq<u64>) {
    if leaf {
        leaf_inserted(n, key, value)
    } else {
        (n.keys.insert(lower_bound(n.keys, key), key), n.values.insert(child_slot(n, key), value))
    }
}

/// The operations of a node whose position is passed in as `state`.
pub trait BLinkNode: Sized {
    /// The node seen with the flags that `state` gives it.
    spec fn at(&self, state: u8) -> NodeView;

    /// Leaves hold payloads, interior nodes child ids.
    spec fn leaf_kind() -> bool;

    /// What the node may be handed by the operations below.
    spec fn shaped(&self, state: u8) -> bool;

    fn new(ptr: u64, right: Option<u64>, keys: Vec<u64>, values: Vec<u64>) -> (r: Self)
        ensures
            r.at(0) == (NodeView {
                node_type: 0,
                my_ptr: ptr,
                keys: keys@,
                values: values@,
                link_ptr: right,
            }),
    ;

    fn my_ptr(&self) -> (r: u64)
        ensures
            r == self.at(0).my_ptr,
    ;

    fn link_ptr(&self) -> (r: Option<u64>)
        ensures
            r == self.at(0).link_ptr,
    ;

    fn max_key(&self) -> (r: u64)
        requires
            self.at(0).keys.len() > 0,
        ensures
            r == self.at(0).keys.last(),
    ;

    fn min_key(&self) -> (r: u64)
        requires
            self.at(0).keys.len() > 0,
        ensures
            r == self.at(0).keys[0],
    ;

    fn is_root(&self, state: u8) -> (r: bool)
        ensures
            r == in_state(state, ROOT),
    ;

    fn is_leaf(&self) -> (r: bool)
        ensures
            r == Self::leaf_kind(),
    ;

    fn is_inode(&self) -> (r: bool)
        ensures
            r == !Self::leaf_kind(),
    ;

    fn is_most_right_node(&self) -> (r: bool)
        ensures
            r == (self.at(0).link_ptr is None),
    ;

    fn can_contain_key(&self, state: u8, key: &u64) -> (r: bool)
        ensures
            r == can_contain(self.at(state), *key),
    ;

    fn move_right(&self, state: u8, key: &u64) -> (r: Option<u64>)
        ensures
            r == spec_move_right(self.at(state), *key),
    ;

    /// What a leaf binds `key` to, or the child an interior node hands
    /// `key` to.
    fn get(&self, state: u8, key: &u64) -> (r: Option<u64>)
        requires
            self.shaped(state),
        ensures
            r == if Self::leaf_kind() {
                leaf_get(self.at(state), *key)
            } else {
                inode_get(self.at(state), *key)
            },
    ;

    fn scannode(&self, state: u8, key: &u64) -> (r: Option<(u64, Movement)>)
        requires
            self.shaped(state),
        ensures
            r == if !can_contain(self.at(state), *key) {
                match self.at(state).link_ptr {
                    Some(l) => Some((l, Movement::Right)),
                    None => None,
                }
            } else if Self::leaf_kind() {
                None
            } else {
                match inode_get(self.at(state), *key) {
                    Some(c) => Some((c, Movement::Down)),
                    None => None,
                }
            },
    ;

    /// The node holds more than `max_size` keys.
    fn needs_split(&self, max_size: usize) -> (r: bool)
        ensures
            r == (max_size < self.at(0).keys.len()),
    ;

    /// Inserts `key` and `value`; a leaf replaces the value of a key it
    /// holds.
    fn insert(&mut self, state: u8, key: u64, value: u64)
        requires
            old(self).shaped(state),
        ensures
            (final(self).at(state).keys, final(self).at(state).values) == simple_inserted(
                Self::leaf_kind(),
                old(self).at(state),
                key,
                value,
            ),
            final(self).at(state).my_ptr == old(self).at(state).my_ptr,
            final(self).at(state).link_ptr == old(self).at(state).link_ptr,
    ;

    /// Inserts `key` and `value` and splits at half of the new key count:
    /// the node keeps the low half and links to the returned node at
    /// `new_page`, which holds the high half and the old link.
    fn split_and_insert(&mut self, state: u8, new_page: u64, key: u64, value: u64) -> (r: Box<Self>)
        requires
            old(self).shaped(state),
        ensures
            ({
                let (ks, vs) = simple_inserted(Self::leaf_kind(), old(self).at(state), key, value);
                let mid = ks.len() / 2;
                &&& final(self).at(state).keys == ks.subrange(0, mid as int)
                &&& final(self).at(state).values == vs.subrange(0, mid as int)
                &&& r.at(0).keys == ks.subrange(mid as int, ks.len() as int)
                &&& r.at(0).values == vs.subrange(mid as int, vs.len() as int)
            }),
            final(self).at(state).link_ptr == Some(new_page),
            final(self).at(state).my_ptr == old(self).at(state).my_ptr,
            r.at(0).my_ptr == new_page,
            r.at(0).link_ptr == old(self).at(state).link_ptr,
    ;
}

/// An interior node: its values are child page ids.
pub struct SimpleBLinkINode {
    pub inode: SimpleBLinkRawNode,
}

/// A leaf: its values are payloads.
pub struct SimpleBLinkLeaf {
    pub leaf: SimpleBLinkRawNode,
}

proof fn lemma_root_state(state: u8)
    ensures
        in_state(state, ROOT) ==> state & 1u8 == 1u8,
        !in_state(state, ROOT) ==> state & 1u8 != 1u8,
        in_state(0, ROOT) == false,
{
    assert(0u8 & 1u8 != 1u8) by (bit_vector);
}

impl BLinkNode for SimpleBLinkINode {
    open spec fn at(&self, state: u8) -> NodeView {
        self.inode.at(state)
    }

    open spec fn leaf_kind() -> bool {
        false
    }

    open spec fn shaped(&self, state: u8) -> bool {
        simple_inode_shape(self.at(state))
    }

    fn new(ptr: u64, right: Option<u64>, keys: Vec<u64>, values: Vec<u64>) -> (r: Self) {
        proof {
            lemma_root_state(0);
        }
        SimpleBLinkINode { inode: SimpleBLinkRawNode::new(ptr, right, keys, values) }
    }

    fn my_ptr(&self) -> (r: u64) {
        self.inode.my_ptr()
    }

    fn link_ptr(&self) -> (r: Option<u64>) {
        self.inode.link_ptr()
    }

    fn max_key(&self) -> (r: u64) {
        self.inode.max_key()
    }

    fn min_key(&self) -> (r: u64) {
        self.inode.min_key()
    }

    fn is_root(&self, state: u8) -> (r: bool) {
        is_in_state(state, ROOT)
    }

    fn is_leaf(&self) -> (r: bool) {
        false
    }

    fn is_inode(&self) -> (r: bool) {
        true
    }

    fn is_most_right_node(&self) -> (r: bool) {
        self.inode.right.is_none()
    }

    fn can_contain_key(&self, state: u8, key: &u64) -> (r: bool) {
        self.inode.can_contain_key(state, key)
    }

    fn move_right(&self, state: u8, key: &u64) -> (r: Option<u64>) {
        if !self.can_contain_key(state, key) {
            self.inode.right
        } else {
            None
        }
    }

    fn get(&self, state: u8, key: &u64) -> (r: Option<u64>) {
        if !self.can_contain_key(state, key) {
            return None;
        }
        proof {
            lemma_strictly_sorted(self.inode.keys@);
            lemma_lower_bound(self.inode.keys@, *key);
            lemma_root_state(state);
        }
        let idx = bsearch_idx(self.inode.keys.as_slice(), key);
        if idx == self.inode.keys.len() && !is_in_state(state, ROOT) && self.inode.right.is_some() {
            proof {
                assert(self.inode.keys@[self.inode.keys@.len() - 1] < *key);
            }
        }
        Some(self.inode.values[idx])
    }

    fn scannode(&self, state: u8, key: &u64) -> (r: Option<(u64, Movement)>) {
        if !self.can_contain_key(state, key) {
            return match self.inode.right {
                Some(r) => Some((r, Movement::Right)),
                None => None,
            };
        }
        match self.get(state, key) {
            Some(c) => Some((c, Movement::Down)),
            None => None,
        }
    }

    fn needs_split(&self, max_size: usize) -> (r: bool) {
        max_size < self.inode.keys.len()
    }

    fn insert(&mut self, state: u8, key: u64, value: u64) {
        proof {
            lemma_strictly_sorted(self.inode.keys@);
            lemma_root_state(state);
        }
        let mut idx = bsearch_idx(self.inode.keys.as_slice(), &key);
        let n_values = self.inode.values.len();
        self.inode.keys.insert(idx, key);
        if is_in_state(state, ROOT) || self.is_most_right_node() {
            assert(idx < n_values);
            idx = idx + 1;
        }
        self.inode.values.insert(idx, value);
    }

    fn split_and_insert(&mut self, state: u8, new_page: u64, key: u64, value: u64) -> (r: Box<Self>) {
        proof {
            lemma_strictly_sorted(self.inode.keys@);
            lemma_lower_bound(self.inode.keys@, key);
        }
        self.insert(state, key, value);
        let new_size = self.inode.keys.len() / 2;
        let values_new = utils::split_at(&mut self.inode.values, new_size);
        let keys_new = utils::split_at(&mut self.inode.keys, new_size);
        let right = self.inode.right;
        self.inode.right = Some(new_page);
        Box::new(SimpleBLinkINode::new(new_page, right, keys_new, values_new))
    }
}

impl BLinkNode for SimpleBLinkLeaf {
    open spec fn at(&self, state: u8) -> NodeView {
        self.leaf.at(state)
    }

    open spec fn leaf_kind() -> bool {
        true
    }

    open spec fn shaped(&self, state: u8) -> bool {
        leaf_shape(self.at(state))
    }

    fn new(ptr: u64, right: Option<u64>, keys: Vec<u64>, values: Vec<u64>) -> (r: Self) {
        proof {
            lemma_root_state(0);
        }
        SimpleBLinkLeaf { leaf: SimpleBLinkRawNode::new(ptr, right, keys, values) }
    }

    fn my_ptr(&self) -> (r: u64) {
        self.leaf.my_ptr()
    }

    fn link_ptr(&self) -> (r: Option<u64>) {
        self.leaf.link_ptr()
    }

    fn max_key(&self) -> (r: u64) {
        self.leaf.max_key()
    }

    fn min_key(&self) -> (r: u64) {
        self.leaf.min_key()
    }

    fn is_root(&self, state: u8) -> (r: bool) {
        is_in_state(state, ROOT)
    }

    fn is_leaf(&self) -> (r: bool) {
        true
    }

    fn is_inode(&self) -> (r: bool) {
        false
    }

    fn is_most_right_node(&self) -> (r: bool) {
        self.leaf.right.is_none()
    }

    fn can_contain_key(&self, state: u8, key: &u64) -> (r: bool) {
        self.leaf.can_contain_key(state, key)
    }

    fn move_right(&self, state: u8, key: &u64) -> (r: Option<u64>) {
        if !self.can_contain_key(state, key) {
            self.leaf.right
        } else {
            None
        }
    }

    fn get(&self, state: u8, key: &u64) -> (r: Option<u64>) {
        if !self.can_contain_key(state, key) || self.leaf.keys.len() == 0 {
            proof {
                lemma_lower_bound(self.leaf.keys@, *key);
                lemma_strictly_sorted(self.leaf.keys@);
            }
            return None;
        }
        proof {
            lemma_strictly_sorted(self.leaf.keys@);
        }
        let idx = bsearch_idx(self.leaf.keys.as_slice(), key);
        if idx < self.leaf.keys.len() && self.leaf.keys[idx] == *key {
            Some(self.leaf.values[idx])
        } else {
            None
        }
    }

    fn scannode(&self, state: u8, key: &u64) -> (r: Option<(u64, Movement)>) {
        if !self.can_contain_key(state, key) {
            match self.leaf.right {
                Some(r) => Some((r, Movement::Right)),
                None => None,
            }
        } else {
            None
        }
    }

    fn needs_split(&self, max_size: usize) -> (r: bool) {
        max_size < self.leaf.keys.len()
    }

    fn insert(&mut self, state: u8, key: u64, value: u64) {
        proof {
            lemma_strictly_sorted(self.leaf.keys@);
        }
        let idx = bsearch_idx(self.leaf.keys.as_slice(), &key);
        if idx < self.leaf.keys.len() && self.leaf.keys[idx] == key {
            self.leaf.values.set(idx, value);
        } else {
            self.leaf.values.insert(idx, value);
            self.leaf.keys.insert(idx, key);
        }
    }

    fn split_and_insert(&mut self, state: u8, new_page: u64, key: u64, value: u64) -> (r: Box<Self>) {
        proof {
            lemma_strictly_sorted(self.leaf.keys@);
            lemma_lower_bound(self.leaf.keys@, key);
        }
        self.insert(state, key, value);
        let new_size = self.leaf.keys.len() / 2;
        let values_new = utils::split_at(&mut self.leaf.values, new_size);
        let keys_new = utils::split_at(&mut self.leaf.keys, new_size);
        let right = self.leaf.right;
        self.leaf.right = Some(new_page);
        Box::new(SimpleBLinkLeaf::new(new_page, right, keys_new, values_new))
    }
}

} // verus!
