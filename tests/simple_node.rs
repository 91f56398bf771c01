use libtrees::simple_node::{
    BLinkNode, Movement, ROOT, SimpleBLinkINode, SimpleBLinkLeaf, SimpleBLinkRawNode,
};

fn can_contains_range(node: &SimpleBLinkRawNode, state: u8, from: u64, to: u64) {
    for i in from..to + 1 {
        assert!(node.can_contain_key(state, &i), "cannot contain key {}, state is {:b}", i, state);
    }
}

#[test]
fn test_can_contain_key() {
    let leaf = SimpleBLinkRawNode::new(0, None, vec![2], vec![0, 1]);
    let state = ROOT;
    can_contains_range(&leaf, state, 0, 10);
    assert!(leaf.can_contain_key(state, &10000));

    let state = 0;
    let leaf = SimpleBLinkRawNode::new(0, None, vec![2, 4], vec![0, 1]);

    can_contains_range(&leaf, state, 0, 4);
}

#[test]
fn test_needs_split() {
    let leaf = SimpleBLinkRawNode::new(0, None, vec![2], vec![0, 1]);
    let state = ROOT;
    can_contains_range(&leaf, state, 0, 10);
    assert!(leaf.can_contain_key(state, &10000));

    let state = 0;
    let leaf = SimpleBLinkRawNode::new(0, None, vec![2, 4], vec![0, 1]);

    can_contains_range(&leaf, state, 0, 4);
}

//           root                  otherwise
//  keys:    . 4 .                  1 | 2 | 3
//  values:  1   3                 10   1   4
#[test]
fn test_root_insert_value_must_be_off_by_one() {
    let mut inode: SimpleBLinkINode = BLinkNode::new(0, None, vec![1], vec![0, 1]);
    let state = ROOT;
    inode.insert(state, 4, 4);
    inode.insert(state, 3, 3);
    let expected: Vec<u64> = vec![0, 1, 3, 4];
    assert!(inode.inode.values == expected, "expected: {:?}, got {:?}", expected, inode.inode.values);
}

#[test]
fn linked_raw_node_stops_at_its_max() {
    let node = SimpleBLinkRawNode::new(3, Some(8), vec![2, 4], vec![20, 40]);
    assert!(node.can_contain_key(0, &4));
    assert!(!node.can_contain_key(0, &5));
    assert!(node.can_contain_key(ROOT, &5));
    assert_eq!(node.size(), 2);
    assert_eq!(node.max_key(), 4);
    assert_eq!(node.min_key(), 2);
    assert_eq!(node.link_ptr(), Some(8));
    assert_eq!(node.my_ptr(), 3);
}

#[test]
fn inner_node_between_siblings_puts_child_at_separator() {
    let mut inode: SimpleBLinkINode = BLinkNode::new(5, Some(6), vec![10, 20], vec![1, 2]);
    inode.insert(0, 15, 9);
    assert_eq!(inode.inode.keys, vec![10, 15, 20]);
    assert_eq!(inode.inode.values, vec![1, 9, 2]);
    assert_eq!(inode.scannode(0, &12), Some((9, Movement::Down)));
    assert_eq!(inode.scannode(0, &21), Some((6, Movement::Right)));
    assert_eq!(inode.move_right(0, &21), Some(6));
    assert_eq!(inode.get(0, &21), None);
    assert!(inode.is_inode());
    assert!(!inode.is_leaf());
}

#[test]
fn simple_leaf_lookup_insert_and_split() {
    let mut leaf: SimpleBLinkLeaf = BLinkNode::new(1, None, vec![], vec![]);
    for k in [4u64, 1, 3, 2] {
        leaf.insert(0, k, k * 10);
    }
    assert_eq!(leaf.leaf.keys, vec![1, 2, 3, 4]);
    assert_eq!(leaf.get(0, &3), Some(30));
    assert_eq!(leaf.get(0, &5), None);
    leaf.insert(0, 3, 33);
    assert_eq!(leaf.get(0, &3), Some(33));
    assert!(leaf.needs_split(3));
    let right = leaf.split_and_insert(0, 2, 5, 50);
    assert_eq!(leaf.leaf.keys, vec![1, 2]);
    assert_eq!(right.leaf.keys, vec![3, 4, 5]);
    assert_eq!(right.leaf.values, vec![33, 40, 50]);
    assert_eq!(leaf.link_ptr(), Some(2));
    assert!(!leaf.is_most_right_node());
    assert!(right.is_most_right_node());
    assert_eq!(leaf.scannode(0, &9), Some((2, Movement::Right)));
    assert_eq!(leaf.scannode(0, &1), None);
    assert!(leaf.is_root(ROOT));
    assert!(!leaf.is_root(0));
}
