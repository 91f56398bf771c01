//! The tree driver: the root pointer, the lookup path, and the insertion
//! path with its cascade of splits up to a new root.

use vstd::prelude::*;
use crate::blink_ops::{
    inode_inserted, leaf_inserted, BLinkOps, DefaultBLinkOps, Movement, can_contain, leaf_shape, spec_move_right,
};
use crate::lock::{LockManager, SimpleLockManager};
use crate::node::Node;
use crate::physical_node::{
    NodeView, DefaultBLinkNode, PhysicalNode, T_INODE, T_LEAF, T_ROOT, lemma_type_constants, strictly_sorted,
};
use crate::statistics::{AtomicStatistics, StatisticsManager, bumped, bumped_n};
use crate::storage::{StorageManager, StupidHashmapStorage};
use crate::tree_shape::{
    Fence, Model, covers, entries_in, key_max, keys_within, leaf_split, leaf_written,
    lemma_covering_can_contain, lemma_descend, lemma_entries_contains, lemma_leaf_inserted, lemma_leaf_lookup,
    lemma_leaf_split, lemma_leaf_write, lemma_parent_slot, lemma_parent_split, lemma_parent_write,
    lemma_leftmost, lemma_move_step, lemma_unique_cover, lemma_walk_extend, lemma_right_link, lemma_root_raise, lemma_subtree_fences, lemma_walk_reaches,
    right_walk, parent_split, parent_written,
    root_raised, descends,
};

verus! {

broadcast use vstd::std_specs::hash::group_hash_axioms;

/// A B-link tree from `u64` keys to `u64` values. A key inserted again
/// has its value replaced.
pub struct BTree {
    pub root: u64,
    pub storage: StupidHashmapStorage,
    pub lock_manager: SimpleLockManager,
    pub statistics: AtomicStatistics,
    pub max_size: usize,
    pub ops: DefaultBLinkOps,
    /// The level and key interval of each page.
    pub fences: Ghost<Map<u64, Fence>>,
    /// The level of the root; leaves are at level 0.
    pub height: Ghost<nat>,
    /// A split whose separator has not reached the parent yet.
    pub pending: Ghost<Option<(u64, u64)>>,
    /// The map the tree stands for.
    pub contents: Ghost<Map<u64, u64>>,
}

impl View for BTree {
    type V = Map<u64, u64>;

    open spec fn view(&self) -> Map<u64, u64> {
        self.contents@
    }
}

/// The page of `level` that answers for `key`.
pub open spec fn path_page(m: Model, key: u64, level: nat) -> u64 {
    choose|p: u64| m.st.contains_key(p) && m.fs[p].level == level && covers(m.fs[p], key as int)
}

/// What the page of `level` on the way to `key` holds once it has taken
/// what comes from below, before any split of its own: the leaf binds
/// `key` to `value`; an interior node takes the separator of the level
/// below, which split, and the new page it split off, which was handed out
/// as `next + level - 1`.
pub open spec fn grown(m: Model, key: u64, value: u64, next: u64, level: nat) -> (Seq<u64>, Seq<u64>)
    decreases level,
{
    if level == 0 {
        leaf_inserted(m.st[path_page(m, key, 0)]@, key, value)
    } else {
        let below = grown(m, key, value, next, (level - 1) as nat).0;
        inode_inserted(
            m.st[path_page(m, key, level)]@,
            below[below.len() / 2 - 1],
            (next + level - 1) as u64,
        )
    }
}

/// How many levels, from the leaves up, split when `key` goes in: a page
/// splits where what it holds after taking from below exceeds `max_size`
/// keys, and then the level above takes the split.
pub open spec fn split_run(m: Model, key: u64, value: u64, next: u64, max_size: usize, level: nat) -> nat
    decreases m.height + 1 - level,
{
    if level > m.height || grown(m, key, value, next, level).0.len() <= max_size {
        0
    } else {
        1 + split_run(m, key, value, next, max_size, level + 1)
    }
}

/// In `t`, the page of `level` holds the low half of what it grew to and
/// links to the page `next + level`, which holds the high half. Where the
/// root split and a new root was raised, the old root lost its root flag.
pub open spec fn split_written(
    m: Model,
    t: BTree,
    key: u64,
    value: u64,
    next: u64,
    level: nat,
    raised: bool,
) -> bool {
    let (ks, vs) = grown(m, key, value, next, level);
    let mid = ks.len() / 2;
    let p = path_page(m, key, level);
    let q = (next + level) as u64;
    let n = m.st[p]@;
    &&& t.storage@[p].is_leaf_node() == (level == 0)
    &&& t.storage@[p]@ == (NodeView {
        node_type: if raised && level == m.height {
            n.node_type & !T_ROOT
        } else {
            n.node_type
        },
        keys: ks.subrange(0, mid as int),
        values: vs.subrange(0, mid as int),
        link_ptr: Some(q),
        ..n
    })
    &&& t.storage@[q].is_leaf_node() == (level == 0)
    &&& t.storage@[q]@ == (NodeView {
        node_type: if level == 0 {
            T_LEAF
        } else {
            T_INODE
        },
        my_ptr: q,
        keys: ks.subrange(mid as int, ks.len() as int),
        values: vs.subrange(mid as int, vs.len() as int),
        link_ptr: n.link_ptr,
    })
}

/// In `t`, the page of `level` holds what it grew to, without a split.
pub open spec fn grown_written(m: Model, t: BTree, key: u64, value: u64, next: u64, level: nat) -> bool {
    let (ks, vs) = grown(m, key, value, next, level);
    let p = path_page(m, key, level);
    &&& t.storage@[p].is_leaf_node() == (level == 0)
    &&& t.storage@[p]@ == (NodeView { keys: ks, values: vs, ..m.st[p]@ })
}

/// The new root that a split of the root at separator `sep` raises over the
/// old root `old_root` and its new sibling `sibling`, at page `r`.
pub open spec fn raised_root(t: BTree, r: u64, sep: u64, old_root: u64, sibling: u64) -> bool {
    &&& t.root == r
    &&& !t.storage@[r].is_leaf_node()
    &&& t.storage@[r]@ == (NodeView {
        node_type: T_INODE | T_ROOT,
        my_ptr: r,
        keys: seq![sep],
        values: seq![old_root, sibling],
        link_ptr: None,
    })
}

/// Where `t` can differ from the tree of `m` after `key` went in and
/// `levels` levels took part: only the pages on the way to `key` up to that
/// level, and pages handed out from `next` on.
pub open spec fn framed(m: Model, t: BTree, key: u64, next: u64, levels: nat) -> bool {
    &&& t.storage@.dom() == m.st.dom().union(
        Set::new(|q: u64| next <= q && q < t.storage.next_page()),
    )
    &&& forall|p: u64|
        #![trigger t.storage@[p]]
        m.st.contains_key(p) && (m.fs[p].level > levels || p != path_page(m, key, m.fs[p].level))
            ==> t.storage@[p] == m.st[p]
}

impl BTree {
    /// The ghost state of the tree.
    pub open spec fn model(&self) -> Model {
        Model {
            st: self.storage@,
            fs: self.fences@,
            root: self.root,
            height: self.height@,
            pend: self.pending@,
            contents: self.contents@,
        }
    }

    /// Every page id in the store was handed out already.
    pub open spec fn ids_ok(&self) -> bool {
        forall|p: u64| #[trigger] self.storage@.contains_key(p) ==> p < self.storage.next_page()
    }

    /// The entry counter counts the keys of the map.
    pub open spec fn counters_ok(&self) -> bool {
        &&& self@.dom().finite()
        &&& self.statistics.elements == self@.len()
    }

    /// No node holds more than `max_size` keys.
    pub open spec fn sizes_ok(&self) -> bool {
        forall|p: u64|
            #[trigger] self.storage@.contains_key(p) ==> self.storage@[p]@.keys.len()
                <= self.max_size
    }

    /// A well-formed tree at rest: no split pending and no lock held.
    pub open spec fn wf(&self) -> bool {
        &&& self.model().wf()
        &&& self.sizes_ok()
        &&& self.pending@ is None
        &&& self.lock_manager@ == Set::<u64>::empty()
        &&& self.max_size >= 3
        &&& self.ids_ok()
        &&& self.counters_ok()
    }

    /// Room for one more insertion: page ids for a split at every level and
    /// a new root, and a count that fits.
    pub open spec fn has_room(&self) -> bool {
        &&& self.storage.next_page() + self.height@ + 2 <= u64::MAX
        &&& self@.len() < usize::MAX
    }

    /// The tree as it is built: page 0 is the only page, an empty leaf that
    /// is the root and has no right link; the next page id is 1 and the
    /// root is at level 0.
    pub open spec fn is_fresh(&self) -> bool {
        &&& self.root == 0
        &&& self.height@ == 0
        &&& self.storage.next_page() == 1
        &&& self.storage@.dom() == set![0u64]
        &&& self.storage@[0].is_leaf_node()
        &&& self.storage@[0]@ == (NodeView {
            node_type: T_LEAF | T_ROOT,
            my_ptr: 0,
            keys: seq![],
            values: seq![],
            link_ptr: None,
        })
        &&& self.fences@ == map![0u64 => Fence { lo: -1, hi: key_max(), level: 0 }]
    }

    /// An empty tree whose nodes split above four keys.
    pub fn new_test() -> (r: BTree)
        ensures
            r.wf(),
            r@ == Map::<u64, u64>::empty(),
            r.max_size == 4,
            r.is_fresh(),
    {
        BTree::new_test_with_size(4)
    }

    /// An empty tree whose nodes split above `max_size` keys: one empty
    /// leaf, which is the root, at page 0.
    pub fn new_test_with_size(max_size: usize) -> (r: BTree)
        requires
            max_size >= 3,
        ensures
            r.wf(),
            r@ == Map::<u64, u64>::empty(),
            r.max_size == max_size,
            r.is_fresh(),
            r.statistics.leafs == 1,
            r.statistics.inodes == 0,
            r.statistics.insertions == 0,
    {
        let root_ptr: u64 = 0;
        let mut storage = StupidHashmapStorage::new();
        let root = DefaultBLinkNode::new(T_LEAF | T_ROOT, root_ptr, None, Vec::new(), Vec::new());
        storage.write(&root_ptr, Node::Leaf(root));
        let ghost fs = Map::<u64, Fence>::empty().insert(
            root_ptr,
            Fence { lo: -1, hi: key_max(), level: 0 },
        );
        let mut btree = BTree {
            root: root_ptr,
            storage,
            lock_manager: SimpleLockManager::new(),
            statistics: AtomicStatistics::new(),
            max_size,
            ops: DefaultBLinkOps,
            fences: Ghost(fs),
            height: Ghost(0),
            pending: Ghost(None),
            contents: Ghost(Map::empty()),
        };
        btree.statistics.inc_leafs();
        proof {
            let m = btree.model();
            lemma_type_constants();
            reveal(keys_within);
            reveal(entries_in);
            assert(m.st.dom() =~= set![root_ptr]);
            assert(m.fs.dom() =~= set![root_ptr]);
            assert(m.fs =~= map![0u64 => Fence { lo: -1, hi: key_max(), level: 0 }]);
            assert(btree.storage@[0]@.keys =~= seq![]);
            assert(btree.storage@[0]@.values =~= seq![]);
            assert(m.link_ok(root_ptr));
            assert(m.leaf_ok(root_ptr));
            assert(m.node_ok(root_ptr));
            assert(btree@.dom() =~= Set::<u64>::empty());
        }
        btree
    }

    /// An empty tree whose nodes split above `max_size` keys, or `None`
    /// where `max_size` is below 3.
    pub fn new(max_size: usize) -> (r: Option<BTree>)
        ensures
            r is Some <==> max_size >= 3,
            r matches Some(t) ==> t.wf() && t@ == Map::<u64, u64>::empty() && t.max_size
                == max_size && t.is_fresh(),
    {
        if max_size < 3 {
            None
        } else {
            Some(BTree::new_test_with_size(max_size))
        }
    }

    /// What `find` returns for `key`.
    pub open spec fn spec_find(&self, key: u64) -> Option<u64> {
        if self@.contains_key(key) {
            Some(self@[key])
        } else {
            None
        }
    }

    /// What `len` returns: the entry counter.
    pub open spec fn spec_len(&self) -> nat {
        self.statistics.elements as nat
    }

    /// The number of keys in the tree.
    pub fn len(&self) -> (r: usize)
        requires
            self.wf(),
        ensures
            r == self.spec_len(),
            r == self@.len(),
    {
        self.statistics.elements()
    }

    /// Reads a page that the store holds.
    fn read(&self, ptr: &u64) -> (r: &Node)
        requires
            self.storage@.contains_key(*ptr),
        ensures
            *r == self.storage@[*ptr],
    {
        self.storage.read(ptr).unwrap()
    }

    /// Walks down from the root towards the leaf for `key`. Returns the leaf
    /// reached and the pages followed downwards on the way, root first, one
    /// per level above the leaf.
    fn find_node(&self, key: &u64) -> (r: (u64, Vec<u64>))
        requires
            self.wf(),
        ensures
            self.storage@.contains_key(r.0),
            self.fences@[r.0].level == 0,
            covers(self.fences@[r.0], *key as int),
            r.1@.len() == self.height@,
            forall|j: int|
                0 <= j < r.1@.len() ==> {
                    &&& self.storage@.contains_key(#[trigger] r.1@[j])
                    &&& self.fences@[r.1@[j]].level == self.height@ - j
                    &&& covers(self.fences@[r.1@[j]], *key as int)
                },
    {
        let ghost m = self.model();
        let mut visited_nodes: Vec<u64> = Vec::new();
        visited_nodes.push(self.root);
        let mut current_ptr = self.root;
        let mut current_node = self.read(&current_ptr);
        while current_node.isINode()
            invariant
                self.wf(),
                m == self.model(),
                self.storage@.contains_key(current_ptr),
                *current_node == self.storage@[current_ptr],
                covers(self.fences@[current_ptr], *key as int),
                self.fences@[current_ptr].level <= self.height@,
                visited_nodes@.len() == self.height@ - self.fences@[current_ptr].level + 1,
                visited_nodes@.last() == current_ptr,
                forall|j: int|
                    0 <= j < visited_nodes@.len() ==> {
                        &&& self.storage@.contains_key(#[trigger] visited_nodes@[j])
                        &&& self.fences@[visited_nodes@[j]].level == self.height@ - j
                        &&& covers(self.fences@[visited_nodes@[j]], *key as int)
                    },
            decreases self.fences@[current_ptr].level,
        {
            proof {
                assert(m.node_ok(current_ptr));
                lemma_descend(m, current_ptr, *key);
            }
            match self.ops.scannode(current_node, key) {
                // a right link is not kept for going back up
                Some((id, Movement::Right)) => {
                    current_ptr = id;
                },
                Some((id, Movement::Down)) => {
                    visited_nodes.push(id);
                    current_ptr = id;
                },
                None => {},
            }
            current_node = self.read(&current_ptr);
        }
        proof {
            assert(m.node_ok(current_ptr));
        }
        visited_nodes.pop();
        (current_ptr, visited_nodes)
    }

    /// The leaf that answers for `key`.
    fn find_leaf(&self, key: &u64) -> (r: u64)
        requires
            self.wf(),
        ensures
            self.storage@.contains_key(r),
            self.fences@[r].level == 0,
            covers(self.fences@[r], *key as int),
    {
        self.find_node(key).0
    }

    /// What the tree binds `key` to. No lock is taken on the way.
    pub fn find(&self, key: &u64) -> (r: Option<u64>)
        requires
            self.wf(),
        ensures
            r == self.spec_find(*key),
    {
        let ghost m = self.model();
        let mut current_ptr = self.find_leaf(key);
        let mut current_node = self.read(&current_ptr);
        proof {
            lemma_leaf_lookup(m, current_ptr, *key);
        }
        while !self.ops.can_contain_key(current_node.getLeaf(), key)
            invariant
                self.wf(),
                m == self.model(),
                self.storage@.contains_key(current_ptr),
                *current_node == self.storage@[current_ptr],
                covers(self.fences@[current_ptr], *key as int),
                self.fences@[current_ptr].level == 0,
                current_node.is_leaf_node(),
                leaf_shape(current_node@),
                can_contain(current_node@, *key),
            decreases key_max() - self.fences@[current_ptr].hi,
        {
            if let Some(next) = current_node.link_ptr() {
                current_ptr = next;
            }
            current_node = self.read(&current_ptr);
        }
        self.ops.get_value(current_node.getLeaf(), key)
    }

    /// The keys of all leaves, read by walking down the leftmost children
    /// and then along the right links of the leaf level: each key of the
    /// tree once, in ascending order.
    pub fn leaf_keys(&self) -> (r: Vec<u64>)
        requires
            self.wf(),
        ensures
            strictly_sorted(r@),
            forall|k: u64| r@.contains(k) <==> self@.contains_key(k),
    {
        let ghost m = self.model();
        let mut current_ptr = self.root;
        let mut current_node = self.read(&current_ptr);
        while current_node.isINode()
            invariant
                self.wf(),
                m == self.model(),
                self.storage@.contains_key(current_ptr),
                *current_node == self.storage@[current_ptr],
                self.fences@[current_ptr].lo == -1,
            decreases self.fences@[current_ptr].level,
        {
            proof {
                assert(m.node_ok(current_ptr));
                assert(m.inode_ok(current_ptr));
                assert(m.link_ok(current_ptr));
                assert(m.child_ok(current_ptr, 0));
            }
            current_ptr = current_node.getINode().values[0];
            current_node = self.read(&current_ptr);
        }
        proof {
            assert(m.node_ok(current_ptr));
        }
        let mut keys: Vec<u64> = Vec::new();
        let ghost mut low: int = -1;
        loop
            invariant_except_break
                self.fences@[current_ptr].lo == low,
                forall|j: int| 0 <= j < keys@.len() ==> #[trigger] keys@[j] <= low,
                forall|k: u64| self@.contains_key(k) && k <= low ==> keys@.contains(k),
            invariant
                self.wf(),
                m == self.model(),
                self.storage@.contains_key(current_ptr),
                *current_node == self.storage@[current_ptr],
                current_node.is_leaf_node(),
                self.fences@[current_ptr].level == 0,
                strictly_sorted(keys@),
                forall|k: u64| keys@.contains(k) ==> self@.contains_key(k),
            ensures
                forall|k: u64| self@.contains_key(k) ==> keys@.contains(k),
            decreases key_max() - low,
        {
            proof {
                assert(m.node_ok(current_ptr));
                assert(m.leaf_ok(current_ptr));
                assert(m.link_ok(current_ptr));
            }
            let leaf = current_node.getLeaf();
            let ghost before = keys@;
            let ghost f = m.fs[current_ptr];
            let mut j: usize = 0;
            while j < leaf.keys.len()
                invariant
                    0 <= j <= leaf.keys@.len(),
                    keys@ == before + leaf.keys@.subrange(0, j as int),
                    strictly_sorted(before),
                    strictly_sorted(leaf.keys@),
                    keys_within(leaf.keys@, f.lo, f.hi),
                    forall|i: int| 0 <= i < before.len() ==> #[trigger] before[i] <= f.lo,
                decreases leaf.keys@.len() - j,
            {
                keys.push(leaf.keys[j]);
                j = j + 1;
            }
            proof {
                assert(keys@ =~= before + leaf.keys@);
                reveal(keys_within);
                assert forall|a: int, b: int| 0 <= a < b < keys@.len() implies keys@[a] < keys@[b] by {
                    if b >= before.len() && a < before.len() {
                        assert(before[a] <= f.lo);
                        assert(f.lo < leaf.keys@[b - before.len()]);
                    }
                }
                assert forall|k: u64| keys@.contains(k) implies self@.contains_key(k) by {
                    let i = choose|i: int| 0 <= i < keys@.len() && keys@[i] == k;
                    if i >= before.len() {
                        lemma_entries_contains(leaf.keys@, leaf.values@, m.contents, i - before.len());
                    } else {
                        assert(before.contains(k));
                    }
                }
                assert forall|k: u64| self@.contains_key(k) && k <= f.hi implies keys@.contains(k) by {
                    if k <= low {
                        assert(before.contains(k));
                        let i = choose|i: int| 0 <= i < before.len() && before[i] == k;
                        assert(keys@[i] == k);
                    } else {
                        assert(m.complete());
                        assert(m.fs.contains_key(current_ptr));
                        assert(leaf.keys@.contains(k));
                        let i = choose|i: int| 0 <= i < leaf.keys@.len() && leaf.keys@[i] == k;
                        assert(keys@[before.len() + i] == k);
                    }
                }
                assert forall|i: int| 0 <= i < keys@.len() implies #[trigger] keys@[i] <= f.hi by {
                    if i >= before.len() {
                        assert(leaf.keys@[i - before.len()] <= f.hi);
                    }
                }
            }
            match current_node.link_ptr() {
                Some(next) => {
                    proof {
                        assert(m.node_ok(next));
                        low = f.hi;
                    }
                    current_ptr = next;
                    current_node = self.read(&current_ptr);
                },
                None => {
                    break;
                },
            }
        }
        keys
    }

    /// The tree binds `key` to some value.
    pub fn contains_key(&self, key: &u64) -> (r: bool)
        requires
            self.wf(),
        ensures
            r == self@.contains_key(*key),
    {
        self.find(key).is_some()
    }

    /// Moves right from `ptr`, which is locked, while the node cannot hold
    /// `key`, taking the lock of the next node before releasing the last.
    /// Returns the node reached, which answers for `key`; only its lock is
    /// held.
    fn move_right(&mut self, ptr: u64, key: &u64) -> (r: u64)
        requires
            old(self).model().wf(),
            old(self).lock_manager@ == Set::<u64>::empty().insert(ptr),
            old(self).storage@.contains_key(ptr),
            old(self).fences@[ptr].lo < *key,
            old(self).pending@ is None || old(self).fences@[ptr].level > old(
                self,
            ).fences@[old(self).model().pend_left()].level,
        ensures
            final(self).storage@.contains_key(r),
            final(self).fences@[r].level == old(self).fences@[ptr].level,
            covers(final(self).fences@[r], *key as int),
            exists|n: nat| right_walk(old(self).model(), ptr, r, n),
            final(self).lock_manager@ == Set::<u64>::empty().insert(r),
            *final(self) == (BTree { lock_manager: final(self).lock_manager, ..*old(self) }),
    {
        let ghost m = self.model();
        let mut current_ptr = ptr;
        let ghost mut steps: nat = 0;
        proof {
            assert(right_walk(m, ptr, ptr, 0));
        }
        loop
            invariant
                m == old(self).model(),
                m.wf(),
                *self == (BTree { lock_manager: self.lock_manager, ..*old(self) }),
                self.storage@.contains_key(current_ptr),
                self.fences@[current_ptr].level == self.fences@[ptr].level,
                self.fences@[current_ptr].lo < *key,
                right_walk(m, ptr, current_ptr, steps),
                self.lock_manager@ == Set::<u64>::empty().insert(current_ptr),
                m.pend is None || self.fences@[ptr].level > self.fences@[m.pend_left()].level,
            ensures
                covers(self.fences@[current_ptr], *key as int),
            decreases key_max() - self.fences@[current_ptr].hi,
        {
            proof {
                lemma_move_step(m, current_ptr, *key);
                assert(m.node_ok(current_ptr));
            }
            match self.ops.move_right(self.read(&current_ptr), key) {
                Some(next_ptr) => {
                    proof {
                        assert(m.node_ok(next_ptr));
                        lemma_walk_extend(m, ptr, current_ptr, next_ptr, steps);
                        steps = steps + 1;
                    }
                    self.lock_manager.lock(next_ptr);
                    self.lock_manager.unlock(&current_ptr);
                    proof {
                        assert(self.lock_manager@ =~= Set::<u64>::empty().insert(next_ptr));
                    }
                    current_ptr = next_ptr;
                },
                None => {
                    break;
                },
            }
        }
        current_ptr
    }

    /// Binds `key` to `value` in leaf `ptr`, which is locked and answers for
    /// `key`. A full leaf that gains a key splits; then the separator (the
    /// leaf's new largest key) and the new right sibling are returned for
    /// the parent.
    fn insert_into_leaf(&mut self, ptr: u64, key: u64, value: u64) -> (r: Option<(u64, u64)>)
        requires
            old(self).sizes_ok(),
            old(self).model().wf(),
            old(self).pending@ is None,
            old(self).lock_manager@ == Set::<u64>::empty().insert(ptr),
            old(self).max_size >= 3,
            old(self).ids_ok(),
            old(self).counters_ok(),
            old(self).storage.next_page() < u64::MAX,
            old(self)@.len() < usize::MAX,
            old(self).storage@.contains_key(ptr),
            old(self).fences@[ptr].level == 0,
            covers(old(self).fences@[ptr], key as int),
        ensures
            final(self).sizes_ok(),
            ({
                let n = old(self).storage@[ptr]@;
                let (ks, vs) = leaf_inserted(n, key, value);
                let mid = ks.len() / 2;
                let nx = old(self).storage.next_page();
                &&& (r is Some) == (ks.len() > old(self).max_size)
                &&& final(self).statistics.inodes == old(self).statistics.inodes
                &&& final(self).statistics.leafs == if r is Some {
                    bumped(old(self).statistics.leafs)
                } else {
                    old(self).statistics.leafs
                }
                &&& final(self).storage@[ptr].is_leaf_node()
                &&& forall|p: u64|
                    #![trigger final(self).storage@[p]]
                    old(self).storage@.contains_key(p) && p != ptr ==> final(self).storage@[p]
                        == old(self).storage@[p]
                &&& match r {
                    None => {
                        &&& final(self).storage.next_page() == nx
                        &&& final(self).storage@.dom() == old(self).storage@.dom()
                        &&& final(self).storage@[ptr]@ == (NodeView { keys: ks, values: vs, ..n })
                    },
                    Some((sep, q)) => {
                        &&& q == nx
                        &&& sep == ks[mid - 1]
                        &&& final(self).storage.next_page() == nx + 1
                        &&& final(self).storage@.dom() == old(self).storage@.dom().insert(q)
                        &&& final(self).storage@[ptr]@ == (NodeView {
                            keys: ks.subrange(0, mid as int),
                            values: vs.subrange(0, mid as int),
                            link_ptr: Some(q),
                            ..n
                        })
                        &&& final(self).storage@[q].is_leaf_node()
                        &&& final(self).storage@[q]@ == (NodeView {
                            node_type: T_LEAF,
                            my_ptr: q,
                            keys: ks.subrange(mid as int, ks.len() as int),
                            values: vs.subrange(mid as int, vs.len() as int),
                            link_ptr: n.link_ptr,
                        })
                    },
                }
            }),
            final(self).model().wf(),
            final(self)@ == old(self)@.insert(key, value),
            final(self).root == old(self).root,
            final(self).height == old(self).height,
            final(self).lock_manager == old(self).lock_manager,
            final(self).max_size == old(self).max_size,
            final(self).ids_ok(),
            final(self).counters_ok(),
            final(self).statistics.insertions == old(self).statistics.insertions,
            final(self).storage.next_page() <= old(self).storage.next_page() + 1,
            forall|p: u64|
                old(self).storage@.contains_key(p) && p != ptr ==> final(self).storage@.contains_key(p)
                    && final(self).fences@[p] == old(self).fences@[p],
            final(self).storage@.contains_key(ptr),
            final(self).fences@[ptr].level == 0,
            match r {
                None => final(self).pending@ is None,
                Some((sep, q)) => {
                    &&& final(self).pending@ == Some((ptr, q))
                    &&& sep == final(self).storage@[ptr]@.keys.last()
                    &&& final(self).fences@[ptr].lo < key <= final(self).fences@[q].hi
                },
            },
    {
        let ghost m = self.model();
        proof {
            lemma_leaf_lookup(m, ptr, key);
            assert(m.node_ok(ptr));
            assert(m.leaf_ok(ptr));
            assert(m.link_ok(ptr));
            lemma_leaf_inserted(m.st[ptr]@, m.fs[ptr].lo, m.fs[ptr].hi, m.contents, key, value);
        }
        let leaf = self.read(&ptr).getLeaf().clone();
        let fresh = self.ops.get_value(&leaf, &key).is_none();
        proof {
            let n = m.st[ptr]@;
            // the leaf holds `key` exactly where the map does
            if n.keys.contains(key) {
                let j = choose|j: int| 0 <= j < n.keys.len() && n.keys[j] == key;
                lemma_entries_contains(n.keys, n.values, m.contents, j);
            }
            if m.contents.contains_key(key) {
                assert(m.complete());
                assert(m.fs.contains_key(ptr));
            }
            assert(n.keys.len() <= self.max_size);
        }
        if !fresh || !leaf.needs_split(self.max_size - 1) {
            let mut leaf2 = leaf;
            self.ops.insert_leaf(&mut leaf2, key, value);
            let new_node = Node::Leaf(leaf2);
            let ghost g = new_node;
            proof {
                lemma_leaf_write(m, ptr, key, value, g);
            }
            write_locked(&mut self.storage, &self.lock_manager, &ptr, new_node);
            self.contents = Ghost(self.contents@.insert(key, value));
            if fresh {
                self.statistics.inc_elements();
            }
            proof {
                assert(self.model() == leaf_written(m, ptr, key, value, g));
                assert(self@.dom() =~= m.contents.dom().insert(key));
            }
            None
        } else {
            let new_ptr = self.storage.new_page();
            let mut left = leaf;
            let right = self.ops.split_and_insert_leaf(&mut left, new_ptr, key, value);
            let sep = left.max_key();
            let np = Node::Leaf(left);
            let nq = Node::Leaf(right);
            let ghost gp = np;
            let ghost gq = nq;
            let ghost m2 = leaf_split(m, ptr, new_ptr, key, value, gp, gq);
            proof {
                lemma_leaf_split(m, ptr, new_ptr, key, value, gp, gq);
            }
            write_locked(&mut self.storage, &self.lock_manager, &new_ptr, nq);
            write_locked(&mut self.storage, &self.lock_manager, &ptr, np);
            self.fences = Ghost(m2.fs);
            self.pending = Ghost(m2.pend);
            self.contents = Ghost(m2.contents);
            self.statistics.inc_leafs();
            self.statistics.inc_elements();
            proof {
                assert(self.storage@ =~= m2.st);
                assert(self.model() == m2);
                assert(self@.dom() =~= m.contents.dom().insert(key));
            }
            Some((sep, new_ptr))
        }
    }

    /// Inserts the separator `sep` and the new right sibling `child` of the
    /// pending split into parent `ptr`, which is locked and answers for
    /// `key`. A full parent splits in turn; then its separator and new
    /// sibling are returned for the next level up.
    fn insert_into_inode(&mut self, ptr: u64, key: u64, sep: u64, child: u64) -> (r: Option<(u64, u64)>)
        requires
            old(self).sizes_ok(),
            old(self).model().wf(),
            old(self).pending@ is Some,
            old(self).model().pend_right() == child,
            sep == old(self).storage@[old(self).model().pend_left()]@.keys.last(),
            old(self).lock_manager@ == Set::<u64>::empty().insert(ptr),
            old(self).max_size >= 3,
            old(self).ids_ok(),
            old(self).counters_ok(),
            old(self).storage.next_page() < u64::MAX,
            old(self).storage@.contains_key(ptr),
            old(self).fences@[ptr].level == old(self).fences@[old(self).model().pend_left()].level + 1,
            covers(old(self).fences@[ptr], key as int),
            old(self).fences@[old(self).model().pend_left()].lo < key <= old(self).fences@[child].hi,
        ensures
            final(self).sizes_ok(),
            ({
                let n = old(self).storage@[ptr]@;
                let (ks, vs) = inode_inserted(n, sep, child);
                let mid = ks.len() / 2;
                let nx = old(self).storage.next_page();
                &&& (r is Some) == (ks.len() > old(self).max_size)
                &&& final(self).statistics.leafs == old(self).statistics.leafs
                &&& final(self).statistics.inodes == if r is Some {
                    bumped(old(self).statistics.inodes)
                } else {
                    old(self).statistics.inodes
                }
                &&& !final(self).storage@[ptr].is_leaf_node()
                &&& forall|p: u64|
                    #![trigger final(self).storage@[p]]
                    old(self).storage@.contains_key(p) && p != ptr ==> final(self).storage@[p]
                        == old(self).storage@[p]
                &&& match r {
                    None => {
                        &&& final(self).storage.next_page() == nx
                        &&& final(self).storage@.dom() == old(self).storage@.dom()
                        &&& final(self).storage@[ptr]@ == (NodeView { keys: ks, values: vs, ..n })
                    },
                    Some((sep2, q)) => {
                        &&& q == nx
                        &&& sep2 == ks[mid - 1]
                        &&& final(self).storage.next_page() == nx + 1
                        &&& final(self).storage@.dom() == old(self).storage@.dom().insert(q)
                        &&& final(self).storage@[ptr]@ == (NodeView {
                            keys: ks.subrange(0, mid as int),
                            values: vs.subrange(0, mid as int),
                            link_ptr: Some(q),
                            ..n
                        })
                        &&& !final(self).storage@[q].is_leaf_node()
                        &&& final(self).storage@[q]@ == (NodeView {
                            node_type: T_INODE,
                            my_ptr: q,
                            keys: ks.subrange(mid as int, ks.len() as int),
                            values: vs.subrange(mid as int, vs.len() as int),
                            link_ptr: n.link_ptr,
                        })
                    },
                }
            }),
            final(self).model().wf(),
            final(self)@ == old(self)@,
            final(self).root == old(self).root,
            final(self).height == old(self).height,
            final(self).lock_manager == old(self).lock_manager,
            final(self).max_size == old(self).max_size,
            final(self).ids_ok(),
            final(self).counters_ok(),
            final(self).statistics.insertions == old(self).statistics.insertions,
            final(self).storage.next_page() <= old(self).storage.next_page() + 1,
            forall|p: u64|
                old(self).storage@.contains_key(p) && p != ptr ==> final(self).storage@.contains_key(p)
                    && final(self).fences@[p] == old(self).fences@[p],
            final(self).storage@.contains_key(ptr),
            final(self).fences@[ptr].level == old(self).fences@[ptr].level,
            match r {
                None => final(self).pending@ is None,
                Some((sep2, q)) => {
                    &&& final(self).pending@ == Some((ptr, q))
                    &&& sep2 == final(self).storage@[ptr]@.keys.last()
                    &&& final(self).fences@[ptr].lo < key <= final(self).fences@[q].hi
                },
            },
    {
        let ghost m = self.model();
        proof {
            lemma_parent_slot(m, ptr, key);
            assert(m.node_ok(ptr));
            assert(m.inode_ok(ptr));
        }
        let inode = self.read(&ptr).getINode().clone();
        if !inode.needs_split(self.max_size - 1) {
            let mut inode2 = inode;
            self.ops.insert_inode(&mut inode2, sep, child);
            let new_node = Node::INode(inode2);
            let ghost g = new_node;
            proof {
                lemma_parent_write(m, ptr, key, g);
            }
            write_locked(&mut self.storage, &self.lock_manager, &ptr, new_node);
            self.pending = Ghost(None);
            proof {
                assert(self.model() == parent_written(m, ptr, g));
            }
            None
        } else {
            let new_ptr = self.storage.new_page();
            let mut left = inode;
            let right = self.ops.split_and_insert_inode(&mut left, new_ptr, sep, child);
            let sep2 = left.max_key();
            let np = Node::INode(left);
            let nq = Node::INode(right);
            let ghost gp = np;
            let ghost gq = nq;
            let ghost m2 = parent_split(m, ptr, new_ptr, gp, gq);
            proof {
                lemma_parent_split(m, ptr, key, new_ptr, gp, gq);
            }
            write_locked(&mut self.storage, &self.lock_manager, &new_ptr, nq);
            write_locked(&mut self.storage, &self.lock_manager, &ptr, np);
            self.fences = Ghost(m2.fs);
            self.pending = Ghost(m2.pend);
            self.statistics.inc_inodes();
            proof {
                assert(self.storage@ =~= m2.st);
                assert(self.model() == m2);
            }
            Some((sep2, new_ptr))
        }
    }

    /// Puts a new root above the old root `smaller`, which is locked and
    /// has just split off `bigger` at separator `key`. The old root loses
    /// its root flag.
    fn new_root(&mut self, smaller: u64, key: u64, bigger: u64)
        requires
            old(self).sizes_ok(),
            old(self).model().wf(),
            old(self).pending@ == Some((old(self).root, bigger)),
            smaller == old(self).root,
            key == old(self).storage@[smaller]@.keys.last(),
            old(self).lock_manager@ == Set::<u64>::empty().insert(smaller),
            old(self).max_size >= 3,
            old(self).ids_ok(),
            old(self).counters_ok(),
            old(self).storage.next_page() < u64::MAX,
        ensures
            final(self).sizes_ok(),
            final(self).root == old(self).storage.next_page(),
            final(self).storage.next_page() == old(self).storage.next_page() + 1,
            final(self).storage@.dom() == old(self).storage@.dom().insert(old(self).storage.next_page()),
            !final(self).storage@[final(self).root].is_leaf_node(),
            final(self).storage@[final(self).root]@ == (NodeView {
                node_type: T_INODE | T_ROOT,
                my_ptr: final(self).root,
                keys: seq![key],
                values: seq![smaller, bigger],
                link_ptr: None,
            }),
            final(self).storage@[smaller].is_leaf_node() == old(self).storage@[smaller].is_leaf_node(),
            final(self).storage@[smaller]@ == (NodeView {
                node_type: old(self).storage@[smaller]@.node_type & !T_ROOT,
                ..old(self).storage@[smaller]@
            }),
            forall|p: u64|
                #![trigger final(self).storage@[p]]
                old(self).storage@.contains_key(p) && p != smaller ==> final(self).storage@[p]
                    == old(self).storage@[p],
            final(self).statistics.inodes == bumped(old(self).statistics.inodes),
            final(self).statistics.leafs == old(self).statistics.leafs,
            final(self).model().wf(),
            final(self).pending@ is None,
            final(self)@ == old(self)@,
            final(self).storage@.contains_key(smaller),
            final(self).height@ == old(self).height@ + 1,
            final(self).lock_manager == old(self).lock_manager,
            final(self).max_size == old(self).max_size,
            final(self).ids_ok(),
            final(self).counters_ok(),
            final(self).statistics.insertions == old(self).statistics.insertions,
    {
        let ghost m = self.model();
        proof {
            assert(m.node_ok(smaller));
        }
        let new_root_ptr = self.storage.new_page();
        let mut keys: Vec<u64> = Vec::new();
        keys.push(key);
        let mut values: Vec<u64> = Vec::new();
        values.push(smaller);
        values.push(bigger);
        let root = DefaultBLinkNode::new(T_INODE | T_ROOT, new_root_ptr, None, keys, values);
        let nr = Node::INode(root);
        let ghost gr = nr;
        write_locked(&mut self.storage, &self.lock_manager, &new_root_ptr, nr);
        // the old root is still locked: nobody sees the new root pointer
        // together with a stale root flag
        self.root = new_root_ptr;
        let mut old_root = self.read(&smaller).clone();
        match &mut old_root {
            Node::INode(n) => n.unset_root(),
            Node::Leaf(n) => n.unset_root(),
        }
        let ghost go = old_root;
        proof {
            assert(gr@.keys =~= seq![key]);
            assert(gr@.values =~= seq![smaller, bigger]);
            lemma_root_raise(m, new_root_ptr, go, gr);
        }
        write_locked(&mut self.storage, &self.lock_manager, &smaller, old_root);
        let ghost m2 = root_raised(m, new_root_ptr, go, gr);
        self.fences = Ghost(m2.fs);
        self.height = Ghost(m2.height);
        self.pending = Ghost(None);
        self.statistics.inc_inodes();
        proof {
            assert(self.storage@ =~= m2.st);
            assert(self.model() == m2);
        }
    }

    /// Binds `key` to `value`, replacing the value of a key already
    /// present. The leaf is locked; a split goes up the pages followed on
    /// the way down, the parent locked before the child is released, and a
    /// split of the root raises a new root.
    ///
    /// The pages on the way to `key` (`path_page`) change as follows, with
    /// `s` the number of levels that split (`split_run`): each of the `s`
    /// lowest keeps the low half of what it grew to (`grown`) and links to
    /// a fresh page with the high half (`split_written`); the page above
    /// them, if the root is not among them, takes what comes from below
    /// without a split (`grown_written`); else a fresh root is raised over
    /// the old root and its new sibling. No other page changes.
    pub fn insert(&mut self, key: u64, value: u64)
        requires
            old(self).wf(),
            old(self).has_room(),
        ensures
            final(self).wf(),
            final(self)@ == old(self)@.insert(key, value),
            final(self).max_size == old(self).max_size,
            final(self).statistics.insertions == bumped(old(self).statistics.insertions),
            final(self).height@ <= old(self).height@ + 1,
            final(self).storage.next_page() <= old(self).storage.next_page() + old(self).height@ + 2,
            ({
                let m = old(self).model();
                let nx = old(self).storage.next_page();
                let h = old(self).height@;
                let s = split_run(m, key, value, nx, old(self).max_size, 0);
                let raised = s == h + 1;
                &&& forall|j: nat|
                    j < s ==> #[trigger] split_written(m, *final(self), key, value, nx, j, raised)
                &&& s <= h ==> {
                    &&& grown_written(m, *final(self), key, value, nx, s)
                    &&& final(self).root == old(self).root
                    &&& final(self).height@ == h
                    &&& final(self).storage.next_page() == nx + s
                }
                &&& s == h + 1 ==> {
                    let below = grown(m, key, value, nx, h).0;
                    &&& raised_root(
                        *final(self),
                        (nx + h + 1) as u64,
                        below[below.len() / 2 - 1],
                        old(self).root,
                        (nx + h) as u64,
                    )
                    &&& final(self).height@ == h + 1
                    &&& final(self).storage.next_page() == nx + h + 2
                }
                &&& framed(m, *final(self), key, nx, if s <= h { s } else { h })
                &&& final(self).statistics.leafs == if s > 0 {
                    bumped(old(self).statistics.leafs)
                } else {
                    old(self).statistics.leafs
                }
                &&& final(self).statistics.inodes == bumped_n(
                    old(self).statistics.inodes,
                    ((if s > 0 { s - 1 } else { 0 }) + (if s == h + 1 { 1int } else { 0int })) as nat,
                )
            }),
    {
        let ghost m = self.model();
        let ghost nx = self.storage.next_page();
        let ghost h = self.height@;
        let ghost mx = self.max_size;
        let ghost s = split_run(m, key, value, nx, mx, 0);
        let (leaf_ptr, mut visited_nodes) = self.find_node(&key);
        self.lock_manager.lock(leaf_ptr);
        let mut current_ptr = self.move_right(leaf_ptr, &key);
        proof {
            lemma_path_page(m, key, 0, current_ptr);
            assert forall|i: int| 0 <= i < visited_nodes@.len() implies #[trigger] visited_nodes@[i]
                == path_page(m, key, (h - i) as nat) by {
                lemma_path_page(m, key, (h - i) as nat, visited_nodes@[i]);
            }
            assert(self.storage@ == m.st);
            assert forall|j: nat| j <= h implies m.st.contains_key(#[trigger] path_page(m, key, j))
                && m.fs[path_page(m, key, j)].level == j by {
                if j > 0 {
                    let i = h - j;
                    assert(visited_nodes@[i] == path_page(m, key, (h - i) as nat));
                }
            }
        }
        let mut insert_res = self.insert_into_leaf(current_ptr, key, value);
        let ghost mut lvl: nat = 0;
        let ghost mut raised: bool = false;
        proof {
            assert(self.storage@.dom() =~= m.st.dom().union(
                Set::new(|q: u64| nx <= q && q < self.storage.next_page()),
            ));
            if insert_res is None {
                assert(split_run(m, key, value, nx, mx, 0) == 0);
            } else {
                assert(split_written(m, *self, key, value, nx, 0, false));
            }
            assert forall|p: u64|
                #![trigger self.storage@[p]]
                m.st.contains_key(p) && (m.fs[p].level > 0 || p != path_page(m, key, m.fs[p].level))
                implies self.storage@[p] == m.st[p] by {
                if p == current_ptr {
                    assert(m.node_ok(p));
                }
            }
        }
        while insert_res.is_some()
            invariant
                self.model().wf(),
                self.sizes_ok(),
                m.wf(),
                m.pend is None,
                mx == old(self).max_size,
                h == m.height,
                s == split_run(m, key, value, nx, mx, 0),
                m == old(self).model(),
                nx == old(self).storage.next_page(),
                h == old(self).height@,
                old(self).has_room(),
                old(self).ids_ok(),
                self.max_size == old(self).max_size,
                self.max_size >= 3,
                self.ids_ok(),
                self.counters_ok(),
                self@ == old(self)@.insert(key, value),
                self.lock_manager@ == Set::<u64>::empty().insert(current_ptr),
                self.storage@.contains_key(current_ptr),
                self.statistics.insertions == old(self).statistics.insertions,
                lvl <= h,
                current_ptr == path_page(m, key, lvl),
                visited_nodes@.len() == h - lvl,
                forall|i: int|
                    0 <= i < visited_nodes@.len() ==> #[trigger] visited_nodes@[i] == path_page(
                        m,
                        key,
                        (h - i) as nat,
                    ),
                forall|j: nat|
                    j <= h ==> m.st.contains_key(#[trigger] path_page(m, key, j)) && m.fs[path_page(
                        m,
                        key,
                        j,
                    )].level == j,
                framed(m, *self, key, nx, lvl),
                match insert_res {
                    None => self.pending@ is None,
                    Some((sep, q)) => {
                        &&& self.pending@ == Some((current_ptr, q))
                        &&& sep == self.storage@[current_ptr]@.keys.last()
                        &&& self.fences@[current_ptr].lo < key <= self.fences@[q].hi
                    },
                },
                insert_res is Some ==> {
                    let below = grown(m, key, value, nx, lvl).0;
                    &&& !raised
                    &&& insert_res == Some((below[below.len() / 2 - 1], (nx + lvl) as u64))
                    &&& s == lvl + 1 + split_run(m, key, value, nx, mx, lvl + 1)
                    &&& forall|j: nat| j <= lvl ==> #[trigger] split_written(m, *self, key, value, nx, j, false)
                    &&& self.storage.next_page() == nx + lvl + 1
                    &&& self.root == old(self).root
                    &&& self.height@ == h
                    &&& self.statistics.leafs == bumped(old(self).statistics.leafs)
                    &&& self.statistics.inodes == bumped_n(old(self).statistics.inodes, lvl)
                    &&& self.fences@[current_ptr].level == lvl
                    &&& self.storage.next_page() + visited_nodes@.len() + 1 <= u64::MAX
                    &&& forall|j: int|
                        0 <= j < visited_nodes@.len() ==> {
                            &&& self.storage@.contains_key(#[trigger] visited_nodes@[j])
                            &&& self.fences@[visited_nodes@[j]].level == self.height@ - j
                            &&& covers(self.fences@[visited_nodes@[j]], key as int)
                        }
                },
                insert_res is None && !raised ==> {
                    &&& s == lvl
                    &&& forall|j: nat| j < lvl ==> #[trigger] split_written(m, *self, key, value, nx, j, false)
                    &&& grown_written(m, *self, key, value, nx, lvl)
                    &&& self.storage.next_page() == nx + lvl
                    &&& self.root == old(self).root
                    &&& self.height@ == h
                    &&& self.statistics.leafs == if lvl > 0 {
                        bumped(old(self).statistics.leafs)
                    } else {
                        old(self).statistics.leafs
                    }
                    &&& self.statistics.inodes == bumped_n(
                        old(self).statistics.inodes,
                        if lvl > 0 { (lvl - 1) as nat } else { 0 },
                    )
                },
                raised ==> {
                    let below = grown(m, key, value, nx, h).0;
                    &&& insert_res is None
                    &&& lvl == h
                    &&& s == h + 1
                    &&& forall|j: nat| j <= h ==> #[trigger] split_written(m, *self, key, value, nx, j, true)
                    &&& raised_root(
                        *self,
                        (nx + h + 1) as u64,
                        below[below.len() / 2 - 1],
                        old(self).root,
                        (nx + h) as u64,
                    )
                    &&& self.storage.next_page() == nx + h + 2
                    &&& self.height@ == h + 1
                    &&& self.statistics.leafs == bumped(old(self).statistics.leafs)
                    &&& self.statistics.inodes == bumped_n(old(self).statistics.inodes, h + 1)
                },
            decreases visited_nodes@.len() + if insert_res is Some { 1int } else { 0int },
        {
            let (sep, ptr) = insert_res.unwrap();
            let ghost before = *self;
            // The pages followed down run out exactly at the root's level,
            // so an empty stack means the root itself has split.
            if visited_nodes.len() == 0 {
                proof {
                    assert(self.model().node_ok(current_ptr));
                    assert(m.node_ok(m.root));
                    lemma_path_page(m, key, h, m.root);
                }
                self.new_root(current_ptr, sep, ptr);
                insert_res = None;
                proof {
                    raised = true;
                    assert forall|j: nat| j <= h implies #[trigger] split_written(
                        m,
                        *self,
                        key,
                        value,
                        nx,
                        j,
                        true,
                    ) by {
                        assert(split_written(m, before, key, value, nx, j, false));
                        let pj = path_page(m, key, j);
                        let qj = (nx + j) as u64;
                        assert(before.storage@.contains_key(qj));
                        if j < h {
                            assert(m.fs[pj].level == j);
                        }
                    }
                    assert(self.storage@.dom() =~= m.st.dom().union(
                        Set::new(|q: u64| nx <= q && q < self.storage.next_page()),
                    ));
                    assert forall|p: u64|
                        #![trigger self.storage@[p]]
                        m.st.contains_key(p) && (m.fs[p].level > lvl || p != path_page(
                            m,
                            key,
                            m.fs[p].level,
                        )) implies self.storage@[p] == m.st[p] by {
                        assert(before.storage@[p] == m.st[p]);
                        if p == current_ptr {
                            assert(m.node_ok(p));
                        }
                    }
                }
            } else {
                let parent = visited_nodes.pop().unwrap();
                let ghost cm = self.model();
                proof {
                    assert(parent == path_page(m, key, (lvl + 1) as nat));
                    lemma_parent_slot(cm, parent, key);
                }
                self.lock_manager.lock(parent);
                self.lock_manager.unlock(&current_ptr);
                proof {
                    assert(self.lock_manager@ =~= Set::<u64>::empty().insert(parent));
                }
                current_ptr = self.move_right(parent, &sep);
                proof {
                    lemma_unique_cover(cm, current_ptr, parent, sep as int);
                    assert(m.node_ok(parent));
                    assert(self.storage@[parent] == m.st[parent]);
                    assert(grown(m, key, value, nx, (lvl + 1) as nat) == inode_inserted(
                        m.st[parent]@,
                        sep,
                        ptr,
                    ));
                }
                let ghost mid_tree = *self;
                proof {
                    assert(mid_tree.storage == before.storage);
                }
                insert_res = self.insert_into_inode(current_ptr, key, sep, ptr);
                proof {
                    let l1 = (lvl + 1) as nat;
                    assert forall|j: nat| j <= lvl implies #[trigger] split_written(
                        m,
                        *self,
                        key,
                        value,
                        nx,
                        j,
                        false,
                    ) by {
                        assert(split_written(m, before, key, value, nx, j, false));
                        assert(split_written(m, mid_tree, key, value, nx, j, false));
                        assert(m.fs[path_page(m, key, j)].level == j);
                        assert(mid_tree.storage@.contains_key((nx + j) as u64));
                    }
                    assert(self.storage@.dom() =~= m.st.dom().union(
                        Set::new(|q: u64| nx <= q && q < self.storage.next_page()),
                    ));
                    assert forall|p: u64|
                        #![trigger self.storage@[p]]
                        m.st.contains_key(p) && (m.fs[p].level > l1 || p != path_page(
                            m,
                            key,
                            m.fs[p].level,
                        )) implies self.storage@[p] == m.st[p] by {
                        assert(mid_tree.storage@[p] == m.st[p]);
                    }
                    if insert_res is Some {
                        assert(split_written(m, *self, key, value, nx, l1, false));
                    } else {
                        assert(grown_written(m, *self, key, value, nx, l1));
                    }
                    lvl = l1;
                }
            }
        }
        let ghost done = *self;
        self.statistics.inc_insertions();
        self.lock_manager.unlock(&current_ptr);
        proof {
            assert(self.lock_manager@ =~= Set::<u64>::empty());
            assert(self.storage == done.storage);
            let raised_root_level = s == h + 1;
            assert forall|j: nat| j < s implies #[trigger] split_written(
                m,
                *self,
                key,
                value,
                nx,
                j,
                raised_root_level,
            ) by {
                assert(split_written(m, done, key, value, nx, j, raised_root_level));
            }
            if s <= h {
                assert(grown_written(m, done, key, value, nx, s));
            }
            assert(framed(m, done, key, nx, lvl));
        }
    }
}

/// The page of a level that answers for `key` is the one `path_page` names.
pub proof fn lemma_path_page(m: Model, key: u64, level: nat, p: u64)
    requires
        m.wf(),
        m.st.contains_key(p),
        m.fs[p].level == level,
        covers(m.fs[p], key as int),
    ensures
        path_page(m, key, level) == p,
{
    let q = path_page(m, key, level);
    lemma_unique_cover(m, p, q, key as int);
}

/// Writes `node` at `ptr`, a page whose lock is held or that nobody can
/// reach yet.
fn write_locked(storage: &mut StupidHashmapStorage, locks: &SimpleLockManager, ptr: &u64, node: Node)
    requires
        locks@.contains(*ptr) || !old(storage)@.contains_key(*ptr),
    ensures
        final(storage)@ == old(storage)@.insert(*ptr, node),
        final(storage).next_page() == old(storage).next_page(),
{
    storage.write(ptr, node);
}

/// A lookup of `key` right after `key` was bound to `value` yields
/// `value`.
pub proof fn law_find_after_insert(before: BTree, after: BTree, key: u64, value: u64)
    requires
        before.wf(),
        after.wf(),
        after@ == before@.insert(key, value),
    ensures
        after.spec_find(key) == Some(value),
{
}

/// The entry count after an insertion is one more where the key was new,
/// and unchanged where only its value was replaced: the count is the number
/// of distinct keys inserted.
pub proof fn law_len_after_insert(before: BTree, after: BTree, key: u64, value: u64)
    requires
        before.wf(),
        after.wf(),
        after@ == before@.insert(key, value),
    ensures
        after.spec_len() == before.spec_len() + if before@.contains_key(key) {
            0int
        } else {
            1int
        },
{
    if before@.contains_key(key) {
        assert(after@.dom() =~= before@.dom());
    } else {
        assert(after@.dom() =~= before@.dom().insert(key));
    }
}

/// Every key held anywhere in the subtree below the child at index `i` of
/// an interior node is at most separator `i` where there is one, and above
/// separator `i - 1` where there is one.
pub proof fn law_subtree_fences(t: BTree, p: u64, i: int, q: u64, n: nat, key: u64)
    requires
        t.wf(),
        t.storage@.contains_key(p),
        !t.storage@[p].is_leaf_node(),
        0 <= i < t.storage@[p]@.values.len(),
        descends(t.model(), t.storage@[p]@.values[i], q, n),
        t.storage@[q]@.keys.contains(key),
    ensures
        i < t.storage@[p]@.keys.len() ==> key <= t.storage@[p]@.keys[i],
        i > 0 ==> t.storage@[p]@.keys[i - 1] < key,
{
    let m = t.model();
    assert(m.node_ok(p));
    lemma_subtree_fences(m, p, i, q, n, key);
}

/// Walking right links stays on one level and ascends: the next node's
/// interval starts where this one ends and all its keys lie above this
/// node's largest key; the walk ends only at a node whose interval reaches
/// the largest key, which has no right link.
pub proof fn law_right_link(t: BTree, p: u64)
    requires
        t.wf(),
        t.storage@.contains_key(p),
    ensures
        match t.storage@[p]@.link_ptr {
            None => t.fences@[p].hi == key_max(),
            Some(q) => {
                &&& t.storage@.contains_key(q)
                &&& q != p
                &&& t.fences@[q].level == t.fences@[p].level
                &&& t.fences@[q].lo == t.fences@[p].hi
                &&& t.fences@[p].hi < t.fences@[q].hi
                &&& forall|j: int|
                    0 <= j < t.storage@[q]@.keys.len() ==> t.storage@[p]@.keys.last()
                        < #[trigger] t.storage@[q]@.keys[j]
            },
        },
{
    lemma_right_link(t.model(), p);
}

/// Every node that a lookup or an insertion for `key` visits answers for
/// `key` (`find_node` and `find_leaf` say so of the pages they return),
/// and such a node can contain `key`.
pub proof fn law_visited_can_contain(t: BTree, p: u64, key: u64)
    requires
        t.wf(),
        t.storage@.contains_key(p),
        covers(t.fences@[p], key as int),
    ensures
        can_contain(t.storage@[p]@, key),
{
    lemma_covering_can_contain(t.model(), p, key);
}

/// Each level, from the root's down to the leaves, has a leftmost node,
/// whose interval starts below every key, and walking right links from it
/// reaches every node of the level. Each step ascends (`law_right_link`),
/// so no node comes twice, and the walk ends at the one node of the level
/// without a right link.
pub proof fn law_level_walk(t: BTree, level: nat)
    requires
        t.wf(),
        level <= t.height@,
    ensures
        exists|first: u64|
            {
                &&& t.storage@.contains_key(first)
                &&& t.fences@[first].level == level
                &&& t.fences@[first].lo == -1
                &&& forall|q: u64|
                    t.storage@.contains_key(q) && t.fences@[q].level == level ==> exists|n: nat|
                        right_walk(t.model(), first, q, n)
            },
{
    let m = t.model();
    lemma_leftmost(m, level);
    let first = choose|p: u64| m.st.contains_key(p) && m.fs[p].level == level && m.fs[p].lo == -1;
    assert forall|q: u64| t.storage@.contains_key(q) && t.fences@[q].level == level implies exists|n: nat|
        right_walk(t.model(), first, q, n) by {
        assert(m.node_ok(q));
        lemma_walk_reaches(m, first, q);
    }
}

} // verus!
