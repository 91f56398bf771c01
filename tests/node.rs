use libtrees::node::Node;
use libtrees::physical_node::{DefaultBLinkNode, PhysicalNode, T_LEAF, T_ROOT};

#[test]
fn node_variants_and_forwarding() {
    let mut leaf = Node::Leaf(DefaultBLinkNode::new(T_LEAF, 4, Some(6), vec![1, 5], vec![2, 3]));
    assert!(leaf.isLeaf());
    assert!(!leaf.isINode());
    assert_eq!(leaf.my_ptr(), 4);
    assert_eq!(leaf.link_ptr(), Some(6));
    assert_eq!(leaf.max_key(), 5);
    assert_eq!(leaf.min_key(), 1);
    assert_eq!(leaf.keys(), &vec![1, 5]);
    assert!(!leaf.is_most_right_node());
    assert!(leaf.needs_split(1));
    assert!(!leaf.needs_split(2));
    assert!(leaf.is_leaf());
    assert!(!leaf.is_root());
    leaf.add_type(T_ROOT);
    assert!(leaf.is_root());
    assert_eq!(leaf.getLeaf().values(), &vec![2, 3]);
    let inode = Node::INode(DefaultBLinkNode::new(0, 9, None, vec![1], vec![2, 3]));
    assert!(inode.isINode());
    assert!(inode.is_most_right_node());
    assert_eq!(inode.getINode().my_ptr(), 9);
}
