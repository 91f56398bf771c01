//! A node of the tree: an interior node, whose values are child page ids,
//! or a leaf, whose values are the payloads.

use vstd::prelude::*;
use crate::physical_node::{DefaultBLinkNode, NodeView, PhysicalNode, set_node_type};

verus! {

pub enum Node {
    INode(DefaultBLinkNode),
    Leaf(DefaultBLinkNode),
}

impl Clone for Node {
    fn clone(&self) -> (r: Self)
        ensures
            r.is_leaf_node() == self.is_leaf_node(),
            r@ == self@,
    {
        match self {
            Node::INode(n) => Node::INode(n.clone()),
            Node::Leaf(n) => Node::Leaf(n.clone()),
        }
    }
}

impl View for Node {
    type V = NodeView;

    /// The fields of the physical node inside, whichever the variant.
    open spec fn view(&self) -> NodeView {
        self.phys()@
    }
}

impl Node {
    /// The physical node inside.
    pub open spec fn phys(self) -> DefaultBLinkNode {
        match self {
            Node::INode(n) => n,
            Node::Leaf(n) => n,
        }
    }

    pub open spec fn is_leaf_node(self) -> bool {
        self is Leaf
    }

    #[allow(non_snake_case)]
    pub fn isLeaf(&self) -> (r: bool)
        ensures
            r == self.is_leaf_node(),
    {
        match self {
            Node::Leaf(_) => true,
            Node::INode(_) => false,
        }
    }

    #[allow(non_snake_case)]
    pub fn isINode(&self) -> (r: bool)
        ensures
            r == !self.is_leaf_node(),
    {
        match self {
            Node::INode(_) => true,
            Node::Leaf(_) => false,
        }
    }

    #[allow(non_snake_case)]
    pub fn getLeaf(&self) -> (r: &DefaultBLinkNode)
        requires
            self.is_leaf_node(),
        ensures
            *r == self.phys(),
    {
        match self {
            Node::Leaf(l) => l,
            Node::INode(i) => i,
        }
    }

    #[allow(non_snake_case)]
    pub fn getINode(&self) -> (r: &DefaultBLinkNode)
        requires
            !self.is_leaf_node(),
        ensures
            *r == self.phys(),
    {
        match self {
            Node::INode(i) => i,
            Node::Leaf(l) => l,
        }
    }

    /// The physical node inside, whichever the variant.
    pub fn physical(&self) -> (r: &DefaultBLinkNode)
        ensures
            *r == self.phys(),
    {
        match self {
            Node::INode(i) => i,
            Node::Leaf(l) => l,
        }
    }

    pub fn my_ptr(&self) -> (r: u64)
        ensures
            r == self@.my_ptr,
    {
        self.physical().my_ptr()
    }

    pub fn link_ptr(&self) -> (r: Option<u64>)
        ensures
            r == self@.link_ptr,
    {
        self.physical().link_ptr()
    }

    pub fn max_key(&self) -> (r: u64)
        requires
            self@.keys.len() > 0,
        ensures
            r == self@.keys.last(),
    {
        self.physical().max_key()
    }

    pub fn min_key(&self) -> (r: u64)
        requires
            self@.keys.len() > 0,
        ensures
            r == self@.keys[0],
    {
        self.physical().min_key()
    }

    pub fn keys(&self) -> (r: &Vec<u64>)
        ensures
            r@ == self@.keys,
    {
        self.physical().keys()
    }

    pub fn is_root(&self) -> (r: bool)
        ensures
            r == self.phys().spec_is_root(),
    {
        self.physical().is_root()
    }

    pub fn is_leaf(&self) -> (r: bool)
        ensures
            r == self.phys().spec_is_leaf(),
    {
        self.physical().is_leaf()
    }

    pub fn is_inode(&self) -> (r: bool)
        ensures
            r == self.phys().spec_is_inode(),
    {
        self.physical().is_inode()
    }

    /// Adds the flags of `node_type` to the node's type.
    pub fn add_type(&mut self, node_type: u64)
        ensures
            final(self).is_leaf_node() == old(self).is_leaf_node(),
            final(self)@.node_type == old(self)@.node_type | node_type,
            final(self)@.my_ptr == old(self)@.my_ptr,
            final(self)@.keys == old(self)@.keys,
            final(self)@.values == old(self)@.values,
            final(self)@.link_ptr == old(self)@.link_ptr,
    {
        match self {
            Node::INode(inode) => set_node_type(&mut inode.node_type, node_type),
            Node::Leaf(leaf) => set_node_type(&mut leaf.node_type, node_type),
        }
    }

    pub fn is_most_right_node(&self) -> (r: bool)
        ensures
            r == (self@.link_ptr is None),
    {
        self.link_ptr().is_none()
    }

    /// The node holds more than `max_size` keys.
    pub fn needs_split(&self, max_size: usize) -> (r: bool)
        ensures
            r == (max_size < self@.keys.len()),
    {
        self.physical().needs_split(max_size)
    }
}

} // verus!
