//! The B-link node algebra: the position-aware operations that the tree
//! driver composes (containment, right moves, scans, lookups, insertion and
//! splits).

use vstd::prelude::*;
use crate::algorithm::{bsearch_idx, lemma_lower_bound, lower_bound, sorted};
use crate::node::Node;
use crate::physical_node::{
    DefaultBLinkNode, NodeView, PhysicalNode, T_INODE, T_LEAF, T_ROOT, has_type, strictly_sorted,
};

verus! {

/// How a scan leaves a node: along the right link, or down to a child.
#[derive(PartialEq, Eq, Structural, Clone, Copy, Debug)]
pub enum Movement {
    Right,
    Down,
}

/// The node may hold `key`: it is the root, or it is the rightmost node of
/// its level and `key` lies above its keys, or `key` is at most its
/// largest key.
pub open spec fn can_contain(n: NodeView, key: u64) -> bool {
    ||| has_type(n.node_type, T_ROOT)
    ||| (n.link_ptr is None && (n.keys.len() == 0 || key > n.keys.last()))
    ||| (n.keys.len() > 0 && key <= n.keys.last())
}

/// The sibling to move to for `key`: the right link when the node cannot
/// hold the key.
pub open spec fn spec_move_right(n: NodeView, key: u64) -> Option<u64> {
    if !can_contain(n, key) {
        n.link_ptr
    } else {
        None
    }
}

/// What a leaf binds `key` to.
pub open spec fn leaf_get(n: NodeView, key: u64) -> Option<u64> {
    let i = lower_bound(n.keys, key);
    if !can_contain(n, key) {
        None
    } else if i < n.keys.len() && n.keys[i] == key {
        Some(n.values[i])
    } else {
        None
    }
}

/// The child that an interior node hands `key` to.
pub open spec fn inode_get(n: NodeView, key: u64) -> Option<u64> {
    if !can_contain(n, key) {
        None
    } else {
        Some(n.values[lower_bound(n.keys, key)])
    }
}

/// Where a scan for `key` goes from a node.
pub open spec fn spec_scannode(node: Node, key: u64) -> Option<(u64, Movement)> {
    if !can_contain(node@, key) {
        match node@.link_ptr {
            Some(l) => Some((l, Movement::Right)),
            None => None,
        }
    } else if node.is_leaf_node() {
        None
    } else {
        match inode_get(node@, key) {
            Some(c) => Some((c, Movement::Down)),
            None => None,
        }
    }
}

/// An interior node whose child for any key it can hold is in range: sorted
/// keys, one child more than keys when rightmost and as many otherwise, and
/// a root is rightmost.
pub open spec fn inode_shape(n: NodeView) -> bool {
    &&& strictly_sorted(n.keys)
    &&& n.values.len() == n.keys.len() + if n.link_ptr is None { 1int } else { 0int }
    &&& has_type(n.node_type, T_ROOT) ==> n.link_ptr is None
}

/// A leaf: sorted keys, one value per key.
pub open spec fn leaf_shape(n: NodeView) -> bool {
    &&& strictly_sorted(n.keys)
    &&& n.values.len() == n.keys.len()
}

/// The keys and values of a leaf after `key` is bound to `value`: the value
/// is replaced where the key is present, else the pair goes in at the
/// key's lower bound.
pub open spec fn leaf_inserted(n: NodeView, key: u64, value: u64) -> (Seq<u64>, Seq<u64>) {
    let i = lower_bound(n.keys, key);
    if i < n.keys.len() && n.keys[i] == key {
        (n.keys, n.values.update(i, value))
    } else {
        (n.keys.insert(i, key), n.values.insert(i, value))
    }
}

/// The keys and values of an interior node after the separator `key` and
/// the child `value` go in: the child lands right of the separator.
pub open spec fn inode_inserted(n: NodeView, key: u64, value: u64) -> (Seq<u64>, Seq<u64>) {
    let i = lower_bound(n.keys, key);
    (n.keys.insert(i, key), n.values.insert(i + 1, value))
}

/// A strictly increasing sequence is sorted.
pub proof fn lemma_strictly_sorted(s: Seq<u64>)
    requires
        strictly_sorted(s),
    ensures
        sorted(s),
{
}

/// The node algebra of the tree.
pub trait BLinkOps {
    fn can_contain_key(&self, node: &DefaultBLinkNode, key: &u64) -> (r: bool)
        ensures
            r == can_contain(node@, *key),
    ;

    fn move_right(&self, node: &Node, key: &u64) -> (r: Option<u64>)
        ensures
            r == spec_move_right(node@, *key),
    ;

    fn get_value(&self, leaf: &DefaultBLinkNode, key: &u64) -> (r: Option<u64>)
        requires
            leaf_shape(leaf@),
        ensures
            r == leaf_get(leaf@, *key),
    ;

    fn get_ptr(&self, inode: &DefaultBLinkNode, key: &u64) -> (r: Option<u64>)
        requires
            inode_shape(inode@),
        ensures
            r == inode_get(inode@, *key),
            r is Some ==> lower_bound(inode@.keys, *key) < inode@.values.len(),
    ;

    fn scannode(&self, node: &Node, key: &u64) -> (r: Option<(u64, Movement)>)
        requires
            node.is_leaf_node() || inode_shape(node@),
        ensures
            r == spec_scannode(*node, *key),
    ;

    fn insert_leaf(&self, leaf: &mut DefaultBLinkNode, key: u64, value: u64)
        requires
            leaf_shape(old(leaf)@),
        ensures
            (final(leaf)@.keys, final(leaf)@.values) == leaf_inserted(old(leaf)@, key, value),
            final(leaf)@.node_type == old(leaf)@.node_type,
            final(leaf)@.my_ptr == old(leaf)@.my_ptr,
            final(leaf)@.link_ptr == old(leaf)@.link_ptr,
    ;

    fn insert_inode(&self, inode: &mut DefaultBLinkNode, key: u64, value: u64)
        requires
            strictly_sorted(old(inode)@.keys),
            lower_bound(old(inode)@.keys, key) < old(inode)@.values.len(),
        ensures
            (final(inode)@.keys, final(inode)@.values) == inode_inserted(old(inode)@, key, value),
            final(inode)@.node_type == old(inode)@.node_type,
            final(inode)@.my_ptr == old(inode)@.my_ptr,
            final(inode)@.link_ptr == old(inode)@.link_ptr,
    ;

    /// Binds `key` to `value` in a full leaf and splits it at half of its
    /// new length: the leaf keeps the low half and links to the returned
    /// node, a leaf at `new_page` holding the high half.
    fn split_and_insert_leaf(
        &self,
        leaf: &mut DefaultBLinkNode,
        new_page: u64,
        key: u64,
        value: u64,
    ) -> (r: DefaultBLinkNode)
        requires
            leaf_shape(old(leaf)@),
        ensures
            ({
                let (ks, vs) = leaf_inserted(old(leaf)@, key, value);
                let mid = ks.len() / 2;
                &&& final(leaf)@.keys == ks.subrange(0, mid as int)
                &&& final(leaf)@.values == vs.subrange(0, mid as int)
                &&& r@.keys == ks.subrange(mid as int, ks.len() as int)
                &&& r@.values == vs.subrange(mid as int, vs.len() as int)
            }),
            final(leaf)@.link_ptr == Some(new_page),
            final(leaf)@.node_type == old(leaf)@.node_type,
            final(leaf)@.my_ptr == old(leaf)@.my_ptr,
            r@.link_ptr == old(leaf)@.link_ptr,
            r@.my_ptr == new_page,
            r@.node_type == T_LEAF,
    ;

    /// Inserts the separator `key` and the child `value` into a full
    /// interior node and splits it at half of its new key count: the node
    /// keeps the low half and links to the returned node at `new_page`.
    fn split_and_insert_inode(
        &self,
        inode: &mut DefaultBLinkNode,
        new_page: u64,
        key: u64,
        value: u64,
    ) -> (r: DefaultBLinkNode)
        requires
            strictly_sorted(old(inode)@.keys),
            lower_bound(old(inode)@.keys, key) < old(inode)@.values.len(),
            old(inode)@.keys.len() <= old(inode)@.values.len(),
        ensures
            ({
                let (ks, vs) = inode_inserted(old(inode)@, key, value);
                let mid = ks.len() / 2;
                &&& final(inode)@.keys == ks.subrange(0, mid as int)
                &&& final(inode)@.values == vs.subrange(0, mid as int)
                &&& r@.keys == ks.subrange(mid as int, ks.len() as int)
                &&& r@.values == vs.subrange(mid as int, vs.len() as int)
            }),
            final(inode)@.link_ptr == Some(new_page),
            final(inode)@.node_type == old(inode)@.node_type,
            final(inode)@.my_ptr == old(inode)@.my_ptr,
            r@.link_ptr == old(inode)@.link_ptr,
            r@.my_ptr == new_page,
            r@.node_type == T_INODE,
    ;
}

/// The node algebra as the tree uses it.
pub struct DefaultBLinkOps;

impl BLinkOps for DefaultBLinkOps {
    fn can_contain_key(&self, node: &DefaultBLinkNode, key: &u64) -> (r: bool) {
        if node.is_root() {
            return true;
        }
        if node.keys.len() == 0 {
            return node.is_most_right_node();
        }
        let max = node.max_key();
        (node.is_most_right_node() && *key > max) || *key <= max
    }

    fn move_right(&self, node: &Node, key: &u64) -> (r: Option<u64>) {
        if !self.can_contain_key(node.physical(), key) {
            node.link_ptr()
        } else {
            None
        }
    }

    fn get_value(&self, leaf: &DefaultBLinkNode, key: &u64) -> (r: Option<u64>) {
        if !self.can_contain_key(leaf, key) {
            return None;
        }
        proof {
            lemma_strictly_sorted(leaf@.keys);
        }
        let idx = bsearch_idx(leaf.keys.as_slice(), key);
        if idx < leaf.keys.len() && leaf.keys[idx] == *key {
            Some(leaf.values[idx])
        } else {
            None
        }
    }

    fn get_ptr(&self, inode: &DefaultBLinkNode, key: &u64) -> (r: Option<u64>) {
        if !self.can_contain_key(inode, key) {
            return None;
        }
        proof {
            lemma_strictly_sorted(inode@.keys);
        }
        let idx = bsearch_idx(inode.keys.as_slice(), key);
        Some(inode.values[idx])
    }

    fn scannode(&self, node: &Node, key: &u64) -> (r: Option<(u64, Movement)>) {
        if !self.can_contain_key(node.physical(), key) {
            return match node.link_ptr() {
                Some(l) => Some((l, Movement::Right)),
                None => None,
            };
        }
        match node {
            Node::Leaf(_) => None,
            Node::INode(inode) => match self.get_ptr(inode, key) {
                Some(c) => Some((c, Movement::Down)),
                None => None,
            },
        }
    }

    fn insert_leaf(&self, leaf: &mut DefaultBLinkNode, key: u64, value: u64) {
        proof {
            lemma_strictly_sorted(leaf@.keys);
        }
        let idx = bsearch_idx(leaf.keys.as_slice(), &key);
        if idx < leaf.keys.len() && leaf.keys[idx] == key {
            leaf.values.set(idx, value);
        } else {
            leaf.keys.insert(idx, key);
            leaf.values.insert(idx, value);
        }
    }

    fn insert_inode(&self, inode: &mut DefaultBLinkNode, key: u64, value: u64) {
        proof {
            lemma_strictly_sorted(inode@.keys);
        }
        let idx = bsearch_idx(inode.keys.as_slice(), &key);
        let n_values = inode.values.len();
        assert(idx < n_values);
        let child_idx = idx + 1;
        inode.keys.insert(idx, key);
        inode.values.insert(child_idx, value);
    }

    fn split_and_insert_leaf(
        &self,
        leaf: &mut DefaultBLinkNode,
        new_page: u64,
        key: u64,
        value: u64,
    ) -> (r: DefaultBLinkNode) {
        proof {
            lemma_strictly_sorted(leaf@.keys);
            lemma_lower_bound(leaf@.keys, key);
        }
        self.insert_leaf(leaf, key, value);
        let new_size = leaf.keys.len() / 2;
        let (keys_new, values_new) = leaf.split_at(new_size);
        let link_ptr = leaf.set_link_ptr(new_page);
        DefaultBLinkNode::new(T_LEAF, new_page, link_ptr, keys_new, values_new)
    }

    fn split_and_insert_inode(
        &self,
        inode: &mut DefaultBLinkNode,
        new_page: u64,
        key: u64,
        value: u64,
    ) -> (r: DefaultBLinkNode) {
        proof {
            lemma_strictly_sorted(inode@.keys);
            lemma_lower_bound(inode@.keys, key);
        }
        self.insert_inode(inode, key, value);
        let new_size = inode.keys.len() / 2;
        let (keys_new, values_new) = inode.split_at(new_size);
        let link_ptr = inode.set_link_ptr(new_page);
        DefaultBLinkNode::new(T_INODE, new_page, link_ptr, keys_new, values_new)
    }
}

} // verus!
