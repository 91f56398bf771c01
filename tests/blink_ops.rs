use libtrees::blink_ops::{BLinkOps, DefaultBLinkOps, Movement};
use libtrees::node::Node;
use libtrees::physical_node::{DefaultBLinkNode, PhysicalNode, T_INODE, T_LEAF, T_ROOT};

fn can_contains_range(ops: &DefaultBLinkOps, node: &DefaultBLinkNode, from: u64, to: u64) {
    for i in from..to + 1 {
        assert!(
            ops.can_contain_key(node, &i),
            "cannot contain key {}, is_root: {}, is_leaf: {}, is_inode: {}",
            i,
            node.is_root(),
            node.is_leaf(),
            node.is_inode()
        );
    }
}

#[test]
fn test_default_blink_ops() {
    let ops = DefaultBLinkOps;
    // can_contain_key
    let tpe = T_ROOT ^ T_LEAF;
    let root = DefaultBLinkNode::new(tpe, 0, None, vec![2], vec![0, 1]);
    can_contains_range(&ops, &root, 0, 10);
    assert!(ops.can_contain_key(&root, &10000));

    let leaf = DefaultBLinkNode::new(T_LEAF, 0, None, vec![2, 4], vec![0, 1]);
    can_contains_range(&ops, &leaf, 0, 4);

    //           inode                otherwise
    //  keys:    . 4 .                  1 | 2 | 3
    //  values:  1   3                 10   1   4
    let mut inode = DefaultBLinkNode::new(T_ROOT & T_LEAF, 0, None, vec![1], vec![0, 1]);
    ops.insert_inode(&mut inode, 4, 4);
    ops.insert_inode(&mut inode, 3, 3);
    let expected: Vec<u64> = vec![0, 1, 3, 4];
    assert!(inode.values() == &expected, "expected: {:?}, got {:?}", expected, inode.values());
}

#[test]
fn linked_node_cannot_contain_keys_above_its_max() {
    let ops = DefaultBLinkOps;
    let leaf = DefaultBLinkNode::new(T_LEAF, 3, Some(5), vec![2, 4], vec![20, 40]);
    assert!(ops.can_contain_key(&leaf, &4));
    assert!(!ops.can_contain_key(&leaf, &5));
    let node = Node::Leaf(leaf);
    assert_eq!(ops.move_right(&node, &5), Some(5));
    assert_eq!(ops.move_right(&node, &3), None);
    assert_eq!(ops.scannode(&node, &9), Some((5, Movement::Right)));
    assert_eq!(ops.scannode(&node, &1), None);
}

#[test]
fn rightmost_node_catches_greater_keys() {
    let ops = DefaultBLinkOps;
    let leaf = DefaultBLinkNode::new(T_LEAF, 3, None, vec![2, 4], vec![20, 40]);
    assert!(ops.can_contain_key(&leaf, &1000));
    assert_eq!(ops.get_value(&leaf, &4), Some(40));
    assert_eq!(ops.get_value(&leaf, &3), None);
    assert_eq!(ops.get_value(&leaf, &1000), None);
}

#[test]
fn scan_of_interior_node_goes_down_at_lower_bound() {
    let ops = DefaultBLinkOps;
    let inode = DefaultBLinkNode::new(T_INODE | T_ROOT, 1, None, vec![10, 20], vec![7, 8, 9]);
    assert_eq!(ops.get_ptr(&inode, &5), Some(7));
    assert_eq!(ops.get_ptr(&inode, &10), Some(7));
    assert_eq!(ops.get_ptr(&inode, &11), Some(8));
    assert_eq!(ops.get_ptr(&inode, &21), Some(9));
    let node = Node::INode(inode);
    assert_eq!(ops.scannode(&node, &15), Some((8, Movement::Down)));
    let linked = DefaultBLinkNode::new(T_INODE, 2, Some(4), vec![10, 20], vec![7, 8]);
    assert_eq!(ops.get_ptr(&linked, &21), None);
}

#[test]
fn insert_leaf_keeps_order_and_replaces_values() {
    let ops = DefaultBLinkOps;
    let mut leaf = DefaultBLinkNode::new(T_LEAF, 3, None, vec![2, 4], vec![20, 40]);
    ops.insert_leaf(&mut leaf, 3, 30);
    assert_eq!(leaf.keys(), &vec![2, 3, 4]);
    assert_eq!(leaf.values(), &vec![20, 30, 40]);
    ops.insert_leaf(&mut leaf, 4, 44);
    assert_eq!(leaf.keys(), &vec![2, 3, 4]);
    assert_eq!(leaf.values(), &vec![20, 30, 44]);
}

#[test]
fn leaf_split_keeps_the_low_half() {
    let ops = DefaultBLinkOps;
    let mut leaf = DefaultBLinkNode::new(T_LEAF | T_ROOT, 0, None, vec![1, 2, 3, 4], vec![1, 2, 3, 4]);
    let right = ops.split_and_insert_leaf(&mut leaf, 1, 5, 5);
    assert_eq!(leaf.keys(), &vec![1, 2]);
    assert_eq!(right.keys(), &vec![3, 4, 5]);
    assert_eq!(right.values(), &vec![3, 4, 5]);
    assert_eq!(leaf.link_ptr(), Some(1));
    assert_eq!(right.link_ptr(), None);
    assert_eq!(right.my_ptr(), 1);
    assert!(!right.is_root());
    assert!(right.is_leaf());
}

#[test]
fn inode_split_keeps_the_low_half() {
    let ops = DefaultBLinkOps;
    let mut inode =
        DefaultBLinkNode::new(T_INODE | T_ROOT, 0, None, vec![2, 4, 6, 8], vec![10, 11, 12, 13, 14]);
    let right = ops.split_and_insert_inode(&mut inode, 20, 10, 15);
    assert_eq!(inode.keys(), &vec![2, 4]);
    assert_eq!(inode.values(), &vec![10, 11]);
    assert_eq!(right.keys(), &vec![6, 8, 10]);
    assert_eq!(right.values(), &vec![12, 13, 14, 15]);
    assert_eq!(inode.link_ptr(), Some(20));
    assert!(right.is_inode());
}
