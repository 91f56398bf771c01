use libtrees::blink_ops::BLinkOps;
use libtrees::blinktree::BTree;
use libtrees::node::Node;
use libtrees::statistics::StatisticsManager;
use libtrees::storage::StorageManager;

fn insert_range(btree: &mut BTree, from: u64, to: u64) {
    for i in from..to {
        let key = i;
        let value = i;
        btree.insert(key, value);
    }
}

#[test]
fn test_insert() {
    let mut btree = BTree::new_test();

    btree.insert(3, 3);
    let res = btree.find(&3);
    assert!(res.is_some());

    assert!(btree.find(&2).is_none());

    btree.insert(2, 5);
    let expected = 5;
    assert!(btree.find(&2) == Some(expected));

    btree.insert(4, 5);
    assert!(btree.find(&4).is_some());
    let expected = 5;
    assert!(btree.find(&4) == Some(expected));

    btree.insert(1204260299403256469, 17554158702358192490);
    assert!(btree.find(&1204260299403256469).is_some());
    assert!(btree.statistics.elements() == 4);
}

#[test]
fn test_new_root() {
    let max_size = 4;
    let mut btree = BTree::new_test_with_size(max_size);
    let old_root = btree.root;
    let overflow_root = max_size as u64 + 2;
    insert_range(&mut btree, 1, overflow_root); // insert 1,2,3,4,5
    assert!(btree.root != old_root);

    let overflow_first_level = 14;
    let old_root = btree.root;
    insert_range(&mut btree, overflow_root, overflow_first_level);
    assert!(btree.root != old_root);
}

#[test]
fn test_range_insertion() {
    let mut btree = BTree::new_test_with_size(4);
    for i in 1u64..1000 {
        let key = i;
        let value = i;
        btree.insert(key, value);
        assert!(btree.len() == i as usize);
        let found = btree.find(&key);
        assert!(found.is_some(), "key: {}, value: {}, i: {}", key, value, i);
        assert!(found == Some(value));
    }
}

#[test]
fn test_long_insertion() {
    let mut btree = BTree::new_test_with_size(4);
    let keys_values: Vec<(u64, u64)> = vec![
        (123, 344),
        (431, 78),
        (134, 789),
        (2, 30),
        (103, 104),
        (853, 10),
        (343, 0),
        (0, 103),
        (13, 54),
        (309, 844),
        (567, 999),
        (898, 78),
        (211, 234),
    ];
    for &(key, value) in keys_values.iter() {
        btree.insert(key, value);
        let found = btree.find(&key);
        assert!(found.is_some(), "key: {}, value: {}", key, value);
        assert!(found == Some(value));
    }
    assert_eq!(btree.len(), 13);
}

/// A small xorshift generator, so that the run can be repeated.
fn next_random(state: &mut u64) -> u64 {
    let mut x = *state;
    x ^= x << 13;
    x ^= x >> 7;
    x ^= x << 17;
    *state = x;
    x
}

#[test]
fn test_random_insertion() {
    let mut btree = BTree::new_test_with_size(4);
    let mut state: u64 = 0x9e37_79b9_7f4a_7c15;
    for _ in 0..10000 {
        let r1: u64 = next_random(&mut state);
        let r2: u64 = next_random(&mut state);
        let key = r1 % 100000;
        let value = r2 % 100000;
        btree.insert(key, value);
        let found = btree.find(&key);
        assert!(found.is_some(), "key: {}, value: {}", key, value);
        assert!(found == Some(value));
    }
}

#[test]
fn test_leaf_split() {
    let mut btree = BTree::new_test_with_size(4);
    let size_leaf_needs_split = 7;
    insert_range(&mut btree, 1, size_leaf_needs_split); // insert 1,2,3,4,5,6
    btree.insert(7, 7);
    let root = btree.storage.read(&btree.root).unwrap().getINode();
    assert!(btree.statistics.leafs() == 3);
    assert!(btree.statistics.inodes() == 1);

    let exp: Vec<u64> = vec![2, 4];
    assert!(root.keys == exp, "root.keys {:?} != {:?}", root.keys, exp);
    let leaf = btree.storage.read(&root.values[2]).unwrap().getLeaf();

    assert!(leaf.keys == vec![5, 6, 7], "leaf.keys {:?} != [6,7]", leaf.keys);
}

#[test]
fn test_find() {
    let mut btree = BTree::new_test_with_size(4);
    let root_ptr = btree.root;
    let mut root = btree.storage.read(&root_ptr).unwrap().getLeaf().clone();
    btree.ops.insert_leaf(&mut root, 1, 2);
    btree.ops.insert_leaf(&mut root, 3, 5);
    btree.ops.insert_leaf(&mut root, 4, 9);
    btree.storage.write(&root_ptr, Node::Leaf(root));
    let expected = 2;
    assert!(btree.find(&1) == Some(expected));
    let expected = 5;
    assert!(btree.find(&3) == Some(expected));
    let expected = 9;
    assert!(btree.find(&4) == Some(expected));
}

#[test]
fn test_find_after_leaf_split() {
    let mut btree = BTree::new_test_with_size(4);
    let size_leaf_needs_split = 5;
    insert_range(&mut btree, 1, size_leaf_needs_split + 1); // insert 1,2,3,4,5

    assert!(btree.statistics.leafs() == 2, "{} != 2", btree.statistics.leafs());
    assert!(btree.statistics.inodes() == 1);

    let expected = 5;
    assert!(btree.find(&5) == Some(expected));
}
