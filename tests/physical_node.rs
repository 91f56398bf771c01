use libtrees::physical_node::{
    PhysicalNode,
    DefaultBLinkNode, T_INODE, T_LEAF, T_ROOT, is_node_type, set_node_type,
};

#[test]
fn test_is_node_type() {
    assert!(is_node_type(T_ROOT, T_ROOT));
    assert!(is_node_type(T_ROOT, T_ROOT));
    assert!(!is_node_type(T_LEAF, T_ROOT));
    assert!(!is_node_type(0, T_ROOT));
}

#[test]
fn test_set_node_type() {
    let tpe = &mut 0;
    set_node_type(tpe, T_ROOT);
    assert!(*tpe == T_ROOT);
}

#[test]
fn root_flag_sets_and_clears_alone() {
    let mut node = DefaultBLinkNode::new(T_LEAF, 7, None, vec![1, 2], vec![10, 20]);
    assert!(!node.is_root());
    assert!(node.is_leaf());
    assert!(!node.is_inode());
    node.set_root();
    assert!(node.is_root());
    assert!(node.is_leaf());
    node.unset_root();
    assert!(!node.is_root());
    assert!(node.is_leaf());
    let inode = DefaultBLinkNode::new(T_INODE, 8, None, vec![1], vec![3, 4]);
    assert!(inode.is_inode());
    assert!(!inode.is_leaf());
}

#[test]
fn node_accessors_and_split() {
    let mut node = DefaultBLinkNode::new(T_LEAF, 7, None, vec![1, 2, 3, 4], vec![10, 20, 30, 40]);
    assert_eq!(node.my_ptr(), 7);
    assert_eq!(node.link_ptr(), None);
    assert!(node.is_most_right_node());
    assert_eq!(node.min_key(), 1);
    assert_eq!(node.max_key(), 4);
    assert!(node.needs_split(3));
    assert!(!node.needs_split(4));
    let (keys, values) = node.split_at(2);
    assert_eq!(keys, vec![3, 4]);
    assert_eq!(values, vec![30, 40]);
    assert_eq!(node.keys(), &vec![1, 2]);
    assert_eq!(node.values(), &vec![10, 20]);
    assert_eq!(node.set_link_ptr(9), None);
    assert_eq!(node.link_ptr(), Some(9));
    assert!(!node.is_most_right_node());
    assert_eq!(node.set_link_ptr(11), Some(9));
}
