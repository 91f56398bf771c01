//! The physical node: type flags, its own page id, a right link, and the
//! ordered keys with their values (payloads in a leaf, child page ids in an
//! interior node).

use vstd::prelude::*;
use crate::utils;

verus! {

/// The node is the root of the tree.
pub const T_ROOT: u64 = 1;
/// The node is a leaf.
pub const T_LEAF: u64 = 2;
/// The node is an interior node.
pub const T_INODE: u64 = 4;

/// `tpe` holds every bit of `node_type`.
pub open spec fn has_type(tpe: u64, node_type: u64) -> bool {
    tpe & node_type == node_type
}

/// Keys that strictly increase.
pub open spec fn strictly_sorted(s: Seq<u64>) -> bool {
    forall|i: int, j: int| 0 <= i < j < s.len() ==> s[i] < s[j]
}

pub fn is_node_type(tpe: u64, node_type: u64) -> (r: bool)
    ensures
        r == has_type(tpe, node_type),
{
    tpe & node_type == node_type
}

pub fn set_node_type(tpe: &mut u64, node_type: u64)
    ensures
        *final(tpe) == *old(tpe) | node_type,
{
    *tpe = *tpe | node_type;
}

/// Setting the root bit makes the root flag hold and keeps the other flags.
pub proof fn lemma_set_root(t: u64)
    ensures
        has_type(t | T_ROOT, T_ROOT),
        has_type(t | T_ROOT, T_LEAF) == has_type(t, T_LEAF),
        has_type(t | T_ROOT, T_INODE) == has_type(t, T_INODE),
{
    assert((t | 1u64) & 1u64 == 1u64) by (bit_vector);
    assert(((t | 1u64) & 2u64 == 2u64) == (t & 2u64 == 2u64)) by (bit_vector);
    assert(((t | 1u64) & 4u64 == 4u64) == (t & 4u64 == 4u64)) by (bit_vector);
}

/// Clearing the root bit makes the root flag fail and keeps the other flags.
pub proof fn lemma_unset_root(t: u64)
    ensures
        !has_type(t & !T_ROOT, T_ROOT),
        has_type(t & !T_ROOT, T_LEAF) == has_type(t, T_LEAF),
        has_type(t & !T_ROOT, T_INODE) == has_type(t, T_INODE),
{
    assert((t & !1u64) & 1u64 != 1u64) by (bit_vector);
    assert(((t & !1u64) & 2u64 == 2u64) == (t & 2u64 == 2u64)) by (bit_vector);
    assert(((t & !1u64) & 4u64 == 4u64) == (t & 4u64 == 4u64)) by (bit_vector);
}

/// The flags of a fresh node of each kind, with and without the root bit.
pub proof fn lemma_type_constants()
    ensures
        has_type(T_LEAF, T_LEAF),
        !has_type(T_LEAF, T_ROOT),
        !has_type(T_LEAF, T_INODE),
        has_type(T_INODE, T_INODE),
        !has_type(T_INODE, T_ROOT),
        !has_type(T_INODE, T_LEAF),
        has_type(T_INODE | T_ROOT, T_INODE),
        has_type(T_INODE | T_ROOT, T_ROOT),
        !has_type(T_INODE | T_ROOT, T_LEAF),
        has_type(T_LEAF | T_ROOT, T_LEAF),
        has_type(T_LEAF | T_ROOT, T_ROOT),
        !has_type(T_LEAF | T_ROOT, T_INODE),
{
    assert(2u64 & 2u64 == 2u64) by (bit_vector);
    assert(2u64 & 1u64 != 1u64) by (bit_vector);
    assert(2u64 & 4u64 != 4u64) by (bit_vector);
    assert(4u64 & 4u64 == 4u64) by (bit_vector);
    assert(4u64 & 1u64 != 1u64) by (bit_vector);
    assert(4u64 & 2u64 != 2u64) by (bit_vector);
    assert((4u64 | 1u64) & 4u64 == 4u64) by (bit_vector);
    assert((4u64 | 1u64) & 1u64 == 1u64) by (bit_vector);
    assert((4u64 | 1u64) & 2u64 != 2u64) by (bit_vector);
    assert((2u64 | 1u64) & 2u64 == 2u64) by (bit_vector);
    assert((2u64 | 1u64) & 1u64 == 1u64) by (bit_vector);
    assert((2u64 | 1u64) & 4u64 != 4u64) by (bit_vector);
}

/// A node of the tree as it is held in the page store.
pub struct DefaultBLinkNode {
    pub node_type: u64,
    pub my_ptr: u64,
    pub keys: Vec<u64>,
    pub values: Vec<u64>,
    pub link_ptr: Option<u64>,
}

/// The mathematical value of a node: its fields, with the vectors as
/// sequences.
pub struct NodeView {
    pub node_type: u64,
    pub my_ptr: u64,
    pub keys: Seq<u64>,
    pub values: Seq<u64>,
    pub link_ptr: Option<u64>,
}

impl View for DefaultBLinkNode {
    type V = NodeView;

    open spec fn view(&self) -> NodeView {
        NodeView {
            node_type: self.node_type,
            my_ptr: self.my_ptr,
            keys: self.keys@,
            values: self.values@,
            link_ptr: self.link_ptr,
        }
    }
}

impl Clone for DefaultBLinkNode {
    fn clone(&self) -> (r: Self)
        ensures
            r@ == self@,
    {
        let keys = self.keys.clone();
        let values = self.values.clone();
        proof {
            assert(keys@ =~= self.keys@);
            assert(values@ =~= self.values@);
        }
        DefaultBLinkNode {
            node_type: self.node_type,
            my_ptr: self.my_ptr,
            keys,
            values,
            link_ptr: self.link_ptr,
        }
    }
}

impl DefaultBLinkNode {
    pub open spec fn spec_is_root(&self) -> bool {
        has_type(self.node_type, T_ROOT)
    }

    pub open spec fn spec_is_leaf(&self) -> bool {
        has_type(self.node_type, T_LEAF)
    }

    pub open spec fn spec_is_inode(&self) -> bool {
        has_type(self.node_type, T_INODE)
    }
}

/// A node as the page store holds it: type flags, its own id, a right link,
/// and ordered keys with their values.
pub trait PhysicalNode: View<V = NodeView> + Sized {
    fn new(
        node_type: u64,
        ptr: u64,
        link_ptr: Option<u64>,
        keys: Vec<u64>,
        values: Vec<u64>,
    ) -> (r: Self)
        ensures
            r@ == (NodeView { node_type, my_ptr: ptr, keys: keys@, values: values@, link_ptr }),
    ;

    fn my_ptr(&self) -> (r: u64)
        ensures
            r == self@.my_ptr,
    ;

    fn link_ptr(&self) -> (r: Option<u64>)
        ensures
            r == self@.link_ptr,
    ;

    /// Points the right link at `new_link_ptr` and returns the link it held.
    fn set_link_ptr(&mut self, new_link_ptr: u64) -> (r: Option<u64>)
        ensures
            r == old(self)@.link_ptr,
            final(self)@ == (NodeView { link_ptr: Some(new_link_ptr), ..old(self)@ }),
    ;

    fn max_key(&self) -> (r: u64)
        requires
            self@.keys.len() > 0,
        ensures
            r == self@.keys.last(),
    ;

    fn min_key(&self) -> (r: u64)
        requires
            self@.keys.len() > 0,
        ensures
            r == self@.keys[0],
    ;

    fn keys(&self) -> (r: &Vec<u64>)
        ensures
            r@ == self@.keys,
    ;

    fn values(&self) -> (r: &Vec<u64>)
        ensures
            r@ == self@.values,
    ;

    fn is_root(&self) -> (r: bool)
        ensures
            r == has_type(self@.node_type, T_ROOT),
    ;

    fn set_root(&mut self)
        ensures
            has_type(final(self)@.node_type, T_ROOT),
            has_type(final(self)@.node_type, T_LEAF) == has_type(old(self)@.node_type, T_LEAF),
            has_type(final(self)@.node_type, T_INODE) == has_type(old(self)@.node_type, T_INODE),
            final(self)@ == (NodeView { node_type: final(self)@.node_type, ..old(self)@ }),
    ;

    fn unset_root(&mut self)
        ensures
            !has_type(final(self)@.node_type, T_ROOT),
            has_type(final(self)@.node_type, T_LEAF) == has_type(old(self)@.node_type, T_LEAF),
            has_type(final(self)@.node_type, T_INODE) == has_type(old(self)@.node_type, T_INODE),
            final(self)@ == (NodeView { node_type: old(self)@.node_type & !T_ROOT, ..old(self)@ }),
    ;

    fn is_leaf(&self) -> (r: bool)
        ensures
            r == has_type(self@.node_type, T_LEAF),
    ;

    fn is_inode(&self) -> (r: bool)
        ensures
            r == has_type(self@.node_type, T_INODE),
    ;

    fn is_most_right_node(&self) -> (r: bool)
        ensures
            r == (self@.link_ptr is None),
    ;

    /// The node holds more than `max_size` keys.
    fn needs_split(&self, max_size: usize) -> (r: bool)
        ensures
            r == (max_size < self@.keys.len()),
    ;

    /// Keeps the keys and values before `position` and returns the rest.
    fn split_at(&mut self, position: usize) -> (r: (Vec<u64>, Vec<u64>))
        requires
            position <= old(self)@.keys.len(),
            position <= old(self)@.values.len(),
        ensures
            final(self)@.keys == old(self)@.keys.subrange(0, position as int),
            final(self)@.values == old(self)@.values.subrange(0, position as int),
            r.0@ == old(self)@.keys.subrange(position as int, old(self)@.keys.len() as int),
            r.1@ == old(self)@.values.subrange(position as int, old(self)@.values.len() as int),
            final(self)@.node_type == old(self)@.node_type,
            final(self)@.my_ptr == old(self)@.my_ptr,
            final(self)@.link_ptr == old(self)@.link_ptr,
    ;
}

impl PhysicalNode for DefaultBLinkNode {
    fn new(
        node_type: u64,
        ptr: u64,
        link_ptr: Option<u64>,
        keys: Vec<u64>,
        values: Vec<u64>,
    ) -> (r: Self) {
        DefaultBLinkNode { node_type, my_ptr: ptr, keys, values, link_ptr }
    }

    fn my_ptr(&self) -> (r: u64) {
        self.my_ptr
    }

    fn link_ptr(&self) -> (r: Option<u64>) {
        self.link_ptr
    }

    fn set_link_ptr(&mut self, new_link_ptr: u64) -> (r: Option<u64>) {
        let old_link_ptr = self.link_ptr;
        self.link_ptr = Some(new_link_ptr);
        old_link_ptr
    }

    fn max_key(&self) -> (r: u64) {
        self.keys[self.keys.len() - 1]
    }

    fn min_key(&self) -> (r: u64) {
        self.keys[0]
    }

    fn keys(&self) -> (r: &Vec<u64>) {
        &self.keys
    }

    fn values(&self) -> (r: &Vec<u64>) {
        &self.values
    }

    fn is_root(&self) -> (r: bool) {
        is_node_type(self.node_type, T_ROOT)
    }

    fn set_root(&mut self) {
        proof {
            lemma_set_root(self.node_type);
        }
        set_node_type(&mut self.node_type, T_ROOT);
    }

    fn unset_root(&mut self) {
        proof {
            lemma_unset_root(self.node_type);
        }
        self.node_type = self.node_type & !T_ROOT;
    }

    fn is_inode(&self) -> (r: bool) {
        is_node_type(self.node_type, T_INODE)
    }

    fn is_leaf(&self) -> (r: bool) {
        is_node_type(self.node_type, T_LEAF)
    }

    fn is_most_right_node(&self) -> (r: bool) {
        self.link_ptr.is_none()
    }

    fn needs_split(&self, max_size: usize) -> (r: bool) {
        max_size < self.keys.len()
    }

    fn split_at(&mut self, position: usize) -> (r: (Vec<u64>, Vec<u64>)) {
        let ret_keys = utils::split_at(&mut self.keys, position);
        let ret_values = utils::split_at(&mut self.values, position);
        (ret_keys, ret_values)
    }
}

} // verus!
