use libtrees::blinktree::BTree;
use libtrees::node::Node;
use libtrees::persistent::PersistentMap;
use libtrees::physical_node::PhysicalNode;
use libtrees::statistics::StatisticsManager;
use libtrees::storage::StorageManager;

fn node(btree: &BTree, ptr: u64) -> &Node {
    btree.storage.read(&ptr).unwrap()
}

/// The keys of every leaf, walking right links from the leftmost leaf.
fn leaf_level_keys(btree: &BTree) -> Vec<u64> {
    let mut ptr = btree.root;
    while node(btree, ptr).isINode() {
        ptr = node(btree, ptr).getINode().values[0];
    }
    let mut keys = Vec::new();
    loop {
        let leaf = node(btree, ptr).getLeaf();
        keys.extend(leaf.keys.iter().copied());
        match leaf.link_ptr() {
            Some(next) => ptr = next,
            None => break,
        }
    }
    keys
}

#[test]
fn first_insert_fills_the_root_leaf() {
    let mut btree = BTree::new_test_with_size(4);
    btree.insert(42, 7);
    assert_eq!(btree.root, 0);
    let root = node(&btree, btree.root);
    assert!(root.isLeaf());
    assert!(root.is_root());
    assert_eq!(root.keys(), &vec![42]);
    assert_eq!(btree.statistics.leafs(), 1);
    assert_eq!(btree.statistics.inodes(), 0);
    assert_eq!(btree.len(), 1);
}

#[test]
fn four_keys_fit_and_the_fifth_splits_the_root() {
    let mut btree = BTree::new_test_with_size(4);
    for k in 1u64..=4 {
        btree.insert(k, k);
    }
    assert!(node(&btree, btree.root).isLeaf());
    assert_eq!(btree.statistics.leafs(), 1);
    btree.insert(5, 5);
    assert_eq!(btree.root, 2);
    assert_eq!(btree.statistics.leafs(), 2);
    assert_eq!(btree.statistics.inodes(), 1);
    let root = node(&btree, btree.root).getINode();
    assert!(root.is_root());
    assert_eq!(root.values, vec![0, 1]);
    assert_eq!(root.keys, vec![2]);
    let left = node(&btree, root.values[0]).getLeaf();
    let right = node(&btree, root.values[1]).getLeaf();
    assert_eq!(left.keys, vec![1, 2]);
    assert_eq!(right.keys, vec![3, 4, 5]);
    assert!(!left.is_root());
    assert_eq!(left.link_ptr(), Some(root.values[1]));
    assert_eq!(right.link_ptr(), None);
    assert!(!node(&btree, 0).is_root());
}

#[test]
fn seven_keys_make_three_leaves() {
    let mut btree = BTree::new_test_with_size(4);
    for k in 1u64..=7 {
        btree.insert(k, k);
    }
    let root = node(&btree, btree.root).getINode();
    assert_eq!(root.keys, vec![2, 4]);
    let leaves: Vec<Vec<u64>> =
        root.values.iter().map(|p| node(&btree, *p).getLeaf().keys.clone()).collect();
    assert_eq!(leaves, vec![vec![1, 2], vec![3, 4], vec![5, 6, 7]]);
    assert_eq!(btree.statistics.leafs(), 3);
    assert_eq!(btree.statistics.inodes(), 1);
}

#[test]
fn rightmost_leaf_takes_a_greater_key() {
    let mut btree = BTree::new_test_with_size(4);
    for k in 1u64..=5 {
        btree.insert(k, k);
    }
    let pages_before = btree.storage.last_page_ptr;
    btree.insert(100, 1);
    assert_eq!(btree.storage.last_page_ptr, pages_before);
    let root = node(&btree, btree.root).getINode();
    let right = node(&btree, root.values[1]).getLeaf();
    assert_eq!(right.keys, vec![3, 4, 5, 100]);
    assert_eq!(btree.find(&100), Some(1));
}

#[test]
fn small_scenario_without_split() {
    let mut btree = BTree::new_test_with_size(4);
    btree.insert(3, 3);
    btree.insert(2, 5);
    btree.insert(4, 5);
    btree.insert(1204260299403256469, 17554158702358192490);
    assert_eq!(btree.find(&3), Some(3));
    assert_eq!(btree.find(&2), Some(5));
    assert_eq!(btree.find(&4), Some(5));
    assert_eq!(btree.find(&1204260299403256469), Some(17554158702358192490));
    assert_eq!(btree.len(), 4);
    let root = node(&btree, btree.root);
    assert!(root.isLeaf() && root.is_root());
}

#[test]
fn insert_then_find_returns_the_latest_value() {
    let mut btree = BTree::new_test_with_size(4);
    for k in 0u64..50 {
        btree.insert(k * 7 % 50, k);
    }
    btree.insert(21, 1000);
    assert_eq!(btree.find(&21), Some(1000));
    btree.insert(21, 1001);
    assert_eq!(btree.find(&21), Some(1001));
    assert_eq!(btree.len(), 50);
}

#[test]
fn len_counts_distinct_keys() {
    let mut btree = BTree::new_test_with_size(3);
    for k in 0u64..40 {
        btree.insert(k, k);
        assert_eq!(btree.len(), (k + 1) as usize);
    }
    btree.insert(5, 0);
    assert_eq!(btree.len(), 40);
    assert_eq!(btree.statistics.insertions(), 41);
}

#[test]
fn leaf_level_walk_lists_every_key_in_order() {
    let mut btree = BTree::new_test_with_size(4);
    let mut expected = Vec::new();
    for k in 0u64..200 {
        let key = (k * 37) % 200;
        btree.insert(key, k);
        expected.push(key);
    }
    expected.sort();
    assert_eq!(leaf_level_keys(&btree), expected);
    assert_eq!(btree.leaf_keys(), expected);
}

#[test]
fn leaf_keys_of_a_tree_with_replaced_values() {
    let mut btree = BTree::new_test_with_size(3);
    assert_eq!(btree.leaf_keys(), Vec::<u64>::new());
    for k in [50u64, 10, 40, 10, 30, 20, 50, 60, 5] {
        btree.insert(k, k + 1);
    }
    assert_eq!(btree.leaf_keys(), vec![5, 10, 20, 30, 40, 50, 60]);
}

#[test]
fn separators_bound_the_keys_of_their_children() {
    let mut btree = BTree::new_test_with_size(4);
    for k in 0u64..100 {
        btree.insert((k * 13) % 100, k);
    }
    let root = node(&btree, btree.root).getINode();
    for (i, child) in root.values.iter().enumerate() {
        let keys = node(&btree, *child).keys().clone();
        for key in keys {
            if i < root.keys.len() {
                assert!(key <= root.keys[i]);
            }
            if i > 0 {
                assert!(root.keys[i - 1] < key);
            }
        }
    }
}

#[test]
fn capacity_below_three_is_refused() {
    assert!(BTree::new(2).is_none());
    assert!(BTree::new(0).is_none());
    let tree = BTree::new(3).unwrap();
    assert_eq!(tree.max_size, 3);
    assert_eq!(tree.len(), 0);
}

#[test]
fn map_interface_finds_and_inserts() {
    let mut tree = BTree::new_test();
    PersistentMap::insert(&mut tree, 9, 90);
    assert!(PersistentMap::contains_key(&tree, &9));
    assert!(!tree.contains_key(&8));
    assert_eq!(PersistentMap::find(&tree, &9), Some(90));
}
