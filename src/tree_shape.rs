//! The shape of a well-formed B-link tree over its page store, and the
//! facts that each step of a lookup or an insertion keeps.
//!
//! Every node carries, in ghost state, a level (0 for leaves) and a key
//! interval `(lo, hi]`: the keys it is answerable for. The intervals of the
//! nodes of one level do not overlap, a right link leads to the node whose
//! interval starts where this one ends, and the child at index `i` of an
//! interior node answers for the keys between separators `i - 1` and `i`.

use vstd::prelude::*;
use crate::algorithm::{is_lower_bound, lemma_lower_bound, lemma_lower_bound_unique, lower_bound};
use crate::blink_ops::{
    can_contain, inode_inserted, inode_shape, leaf_get, leaf_inserted, leaf_shape,
    lemma_strictly_sorted,
};
use crate::node::Node;
use crate::physical_node::{
    NodeView, T_INODE, T_LEAF, T_ROOT, has_type, lemma_type_constants, strictly_sorted,
};

verus! {

/// The level of a node and the interval `(lo, hi]` of keys it answers for.
pub struct Fence {
    pub lo: int,
    pub hi: int,
    pub level: nat,
}

/// The largest key.
pub open spec fn key_max() -> int {
    u64::MAX as int
}

pub open spec fn covers(f: Fence, k: int) -> bool {
    f.lo < k <= f.hi
}

/// The lower bound of the child at index `i` of an interior node.
pub open spec fn child_lo(n: NodeView, f: Fence, i: int) -> int {
    if i == 0 {
        f.lo
    } else {
        n.keys[i - 1] as int
    }
}

/// The upper bound of the child at index `i` of an interior node.
pub open spec fn child_hi(n: NodeView, f: Fence, i: int) -> int {
    if i < n.keys.len() {
        n.keys[i] as int
    } else {
        f.hi
    }
}

/// Every element lies in `(lo, hi]`.
#[verifier::opaque]
pub open spec fn keys_within(s: Seq<u64>, lo: int, hi: int) -> bool {
    forall|j: int| 0 <= j < s.len() ==> lo < #[trigger] s[j] <= hi
}

/// The map binds each key of `ks` to the value at the same index of `vs`.
#[verifier::opaque]
pub open spec fn entries_in(ks: Seq<u64>, vs: Seq<u64>, c: Map<u64, u64>) -> bool {
    forall|j: int|
        #![trigger ks[j]]
        0 <= j < ks.len() ==> c.contains_key(ks[j]) && c[ks[j]] == vs[j]
}

/// The ghost state of a tree: the page store, the fence of each page, the
/// root and its level, the split (left, right) whose separator has not yet
/// reached the parent, if any, and the map that the tree stands for.
pub struct Model {
    pub st: Map<u64, Node>,
    pub fs: Map<u64, Fence>,
    pub root: u64,
    pub height: nat,
    pub pend: Option<(u64, u64)>,
    pub contents: Map<u64, u64>,
}

impl Model {
    /// The left half of the pending split.
    pub open spec fn pend_left(self) -> u64 {
        match self.pend {
            Some(lr) => lr.0,
            None => 0,
        }
    }

    /// The right half of the pending split.
    pub open spec fn pend_right(self) -> u64 {
        match self.pend {
            Some(lr) => lr.1,
            None => 0,
        }
    }

    /// The upper bound that the parent of `c` records for it: the fence of
    /// `c`, or of its new right sibling while `c` is the left half of the
    /// pending split.
    pub open spec fn reach_hi(self, c: u64) -> int {
        match self.pend {
            Some(lr) => if lr.0 == c {
                self.fs[lr.1].hi
            } else {
                self.fs[c].hi
            },
            None => self.fs[c].hi,
        }
    }

    pub open spec fn child_ok(self, p: u64, i: int) -> bool {
        let n = self.st[p]@;
        let f = self.fs[p];
        let c = n.values[i];
        &&& self.st.contains_key(c)
        &&& self.fs[c].level + 1 == f.level
        &&& self.fs[c].lo == child_lo(n, f, i)
        &&& self.reach_hi(c) == child_hi(n, f, i)
    }

    pub open spec fn link_ok(self, p: u64) -> bool {
        let n = self.st[p]@;
        let f = self.fs[p];
        match n.link_ptr {
            None => f.hi == key_max(),
            Some(q) => {
                &&& self.st.contains_key(q)
                &&& self.fs[q].level == f.level
                &&& self.fs[q].lo == f.hi
                &&& n.keys.len() > 0
                &&& n.keys.last() == f.hi
            },
        }
    }

    pub open spec fn leaf_ok(self, p: u64) -> bool {
        let n = self.st[p]@;
        &&& self.st[p].is_leaf_node()
        &&& leaf_shape(n)
        &&& entries_in(n.keys, n.values, self.contents)
    }

    pub open spec fn inode_ok(self, p: u64) -> bool {
        let n = self.st[p]@;
        &&& !self.st[p].is_leaf_node()
        &&& strictly_sorted(n.keys)
        &&& n.values.len() == n.keys.len() + if n.link_ptr is None { 1int } else { 0int }
        &&& forall|i: int| 0 <= i < n.values.len() ==> #[trigger] self.child_ok(p, i)
    }

    /// The conditions on one node.
    pub open spec fn node_ok(self, p: u64) -> bool {
        let n = self.st[p]@;
        let f = self.fs[p];
        &&& n.my_ptr == p
        &&& -1 <= f.lo < f.hi <= key_max()
        &&& f.level <= self.height
        &&& (has_type(n.node_type, T_ROOT) <==> p == self.root)
        &&& (has_type(n.node_type, T_LEAF) <==> f.level == 0)
        &&& (has_type(n.node_type, T_INODE) <==> f.level > 0)
        &&& keys_within(n.keys, f.lo, f.hi)
        &&& self.link_ok(p)
        &&& if f.level == 0 {
            self.leaf_ok(p)
        } else {
            self.inode_ok(p)
        }
    }

    /// Nodes of one level answer for disjoint intervals.
    pub open spec fn disjoint(self) -> bool {
        forall|p: u64, q: u64|
            #![trigger self.fs[p], self.fs[q]]
            self.st.contains_key(p) && self.st.contains_key(q) && p != q && self.fs[p].level
                == self.fs[q].level ==> self.fs[p].hi <= self.fs[q].lo || self.fs[q].hi
                <= self.fs[p].lo
    }

    /// Every key of the map is held by each leaf that answers for it.
    pub open spec fn complete(self) -> bool {
        forall|k: u64, p: u64|
            #![trigger self.contents.contains_key(k), self.fs[p]]
            self.contents.contains_key(k) && self.st.contains_key(p) && self.fs[p].level == 0
                && covers(self.fs[p], k as int) ==> self.st[p]@.keys.contains(k)
    }

    /// The right half of the pending split, if any, is nobody's child.
    pub open spec fn pend_ok(self) -> bool {
        match self.pend {
            None => true,
            Some(lr) => {
                &&& self.st.contains_key(lr.0)
                &&& self.st.contains_key(lr.1)
                &&& lr.0 != lr.1
                &&& lr.1 != self.root
                &&& self.st[lr.0]@.link_ptr == Some(lr.1)
                &&& forall|p: u64, i: int|
                    self.st.contains_key(p) && self.fs[p].level > 0 && 0 <= i
                        < self.st[p]@.values.len() ==> #[trigger] self.st[p]@.values[i] != lr.1
            },
        }
    }

    /// The whole tree is well formed, up to the pending split.
    pub open spec fn wf(self) -> bool {
        &&& self.st.dom() == self.fs.dom()
        &&& self.st.dom().finite()
        &&& self.st.contains_key(self.root)
        &&& self.fs[self.root].level == self.height
        &&& self.fs[self.root].lo == -1
        &&& self.reach_hi(self.root) == key_max()
        &&& forall|p: u64| self.st.contains_key(p) ==> #[trigger] self.node_ok(p)
        &&& forall|p: u64|
            #[trigger] self.st.contains_key(p) && self.fs[p].level == self.height ==> p == self.root
                || self.pend == Some((self.root, p))
        &&& self.disjoint()
        &&& self.complete()
        &&& self.pend_ok()
    }
}

pub proof fn lemma_within_contains(s: Seq<u64>, lo: int, hi: int, k: u64)
    requires
        keys_within(s, lo, hi),
        s.contains(k),
    ensures
        lo < k <= hi,
{
    reveal(keys_within);
}

pub proof fn lemma_entries_contains(ks: Seq<u64>, vs: Seq<u64>, c: Map<u64, u64>, j: int)
    requires
        entries_in(ks, vs, c),
        0 <= j < ks.len(),
    ensures
        c.contains_key(ks[j]),
        c[ks[j]] == vs[j],
{
    reveal(entries_in);
}

/// Binding a key that `ks` does not hold leaves its entries in the map.
pub proof fn lemma_entries_absent(ks: Seq<u64>, vs: Seq<u64>, c: Map<u64, u64>, k: u64, v: u64)
    requires
        entries_in(ks, vs, c),
        !ks.contains(k),
    ensures
        entries_in(ks, vs, c.insert(k, v)),
{
    reveal(entries_in);
    assert forall|j: int| 0 <= j < ks.len() implies #[trigger] c.insert(k, v).contains_key(ks[j])
        && c.insert(k, v)[ks[j]] == vs[j] by {
        assert(ks[j] != k);
    }
}

/// Inserting a missing key at its lower bound keeps a sequence strictly
/// increasing.
pub proof fn lemma_insert_sorted(s: Seq<u64>, k: u64, i: int)
    requires
        strictly_sorted(s),
        is_lower_bound(s, k, i),
        !(i < s.len() && s[i] == k),
    ensures
        strictly_sorted(s.insert(i, k)),
{
    let t = s.insert(i, k);
    assert forall|a: int, b: int| 0 <= a < b < t.len() implies t[a] < t[b] by {
        if b < i {
        } else if b == i {
        } else if a < i {
            assert(s[b - 1] >= k);
        } else if a == i {
            assert(s[b - 1] >= k);
            if b - 1 > i {
                assert(s[i] < s[b - 1]);
                assert(s[i] >= k);
            }
        } else {
        }
    }
}

/// The leaf's keys and values after binding `k` to `v`.
pub proof fn lemma_leaf_inserted(n: NodeView, lo: int, hi: int, c: Map<u64, u64>, k: u64, v: u64)
    requires
        leaf_shape(n),
        lo < k <= hi,
        keys_within(n.keys, lo, hi),
        entries_in(n.keys, n.values, c),
        n.link_ptr is Some ==> n.keys.len() > 0 && n.keys.last() == hi,
    ensures
        ({
            let (ks, vs) = leaf_inserted(n, k, v);
            &&& strictly_sorted(ks)
            &&& vs.len() == ks.len()
            &&& keys_within(ks, lo, hi)
            &&& entries_in(ks, vs, c.insert(k, v))
            &&& ks.contains(k)
            &&& forall|k2: u64| n.keys.contains(k2) ==> ks.contains(k2)
            &&& n.link_ptr is Some ==> ks.len() > 0 && ks.last() == hi
            &&& ks.len() == n.keys.len() + if n.keys.contains(k) {
                0int
            } else {
                1int
            }
        }),
{
    reveal(keys_within);
    reveal(entries_in);
    lemma_strictly_sorted(n.keys);
    lemma_lower_bound(n.keys, k);
    let i = lower_bound(n.keys, k);
    let (ks, vs) = leaf_inserted(n, k, v);
    let c2 = c.insert(k, v);
    if i < n.keys.len() && n.keys[i] == k {
        assert(n.keys.contains(k));
        assert(ks[i] == k);
        assert forall|j: int| 0 <= j < ks.len() implies #[trigger] c2.contains_key(ks[j])
            && c2[ks[j]] == vs[j] by {
            if j != i {
                assert(ks[j] != k);
            }
        }
    } else {
        lemma_insert_sorted(n.keys, k, i);
        if n.keys.contains(k) {
            let j = choose|j: int| 0 <= j < n.keys.len() && n.keys[j] == k;
            assert(is_lower_bound(n.keys, k, j));
            lemma_lower_bound_unique(n.keys, k, i, j);
        }
        assert(ks[i] == k);
        assert forall|j: int| 0 <= j < ks.len() implies #[trigger] c2.contains_key(ks[j])
            && c2[ks[j]] == vs[j] by {
            if j < i {
                assert(ks[j] == n.keys[j] && vs[j] == n.values[j]);
                assert(c.contains_key(n.keys[j]));
            } else if j > i {
                assert(ks[j] == n.keys[j - 1] && vs[j] == n.values[j - 1]);
                assert(c.contains_key(n.keys[j - 1]));
            }
        }
        assert forall|k2: u64| n.keys.contains(k2) implies ks.contains(k2) by {
            let j0 = choose|j0: int| 0 <= j0 < n.keys.len() && n.keys[j0] == k2;
            if j0 < i {
                assert(ks[j0] == n.keys[j0]);
            } else {
                assert(ks[j0 + 1] == n.keys[j0]);
            }
        }
        assert forall|j: int| 0 <= j < ks.len() implies lo < #[trigger] ks[j] <= hi by {
            if j < i {
                assert(ks[j] == n.keys[j]);
            } else if j > i {
                assert(ks[j] == n.keys[j - 1]);
            }
        }
        if n.link_ptr is Some {
            if i == n.keys.len() {
                assert(n.keys[n.keys.len() - 1] < k);
            }
            assert(ks.last() == n.keys.last());
        }
    }
}

/// A strictly increasing sequence with its values, cut at `mid`: each part
/// keeps the order, the entries and a fence whose bound at the cut is the
/// last key of the low part.
pub proof fn lemma_cut(ks: Seq<u64>, vs: Seq<u64>, c: Map<u64, u64>, lo: int, hi: int, mid: int)
    requires
        strictly_sorted(ks),
        vs.len() == ks.len(),
        keys_within(ks, lo, hi),
        entries_in(ks, vs, c),
        0 < mid < ks.len(),
    ensures
        ({
            let low = ks.subrange(0, mid);
            let high = ks.subrange(mid, ks.len() as int);
            let sep = ks[mid - 1] as int;
            &&& strictly_sorted(low)
            &&& strictly_sorted(high)
            &&& keys_within(low, lo, sep)
            &&& keys_within(high, sep, hi)
            &&& entries_in(low, vs.subrange(0, mid), c)
            &&& entries_in(high, vs.subrange(mid, vs.len() as int), c)
            &&& lo < sep < ks[mid] <= hi
            &&& low.len() > 0 && low.last() == sep
            &&& high.len() > 0 && high.last() == ks.last()
            &&& forall|k2: u64| ks.contains(k2) && k2 <= sep ==> low.contains(k2)
            &&& forall|k2: u64| ks.contains(k2) && k2 > sep ==> high.contains(k2)
        }),
{
    reveal(keys_within);
    reveal(entries_in);
    let low = ks.subrange(0, mid);
    let high = ks.subrange(mid, ks.len() as int);
    let sep = ks[mid - 1] as int;
    assert(ks[mid - 1] < ks[mid]);
    assert forall|j: int| 0 <= j < low.len() implies lo < #[trigger] low[j] <= sep by {
        assert(low[j] == ks[j]);
    }
    assert forall|j: int| 0 <= j < high.len() implies sep < #[trigger] high[j] <= hi by {
        assert(high[j] == ks[j + mid]);
    }
    let lv = vs.subrange(0, mid);
    let hv = vs.subrange(mid, vs.len() as int);
    assert forall|j: int| 0 <= j < low.len() implies #[trigger] c.contains_key(low[j]) && c[low[j]]
        == lv[j] by {
        assert(low[j] == ks[j]);
    }
    assert forall|j: int| 0 <= j < high.len() implies #[trigger] c.contains_key(high[j])
        && c[high[j]] == hv[j] by {
        assert(high[j] == ks[j + mid]);
    }
    assert forall|k2: u64| ks.contains(k2) && k2 <= sep implies low.contains(k2) by {
        lemma_cut_contains(ks, mid, k2);
    }
    assert forall|k2: u64| ks.contains(k2) && k2 > sep implies high.contains(k2) by {
        lemma_cut_contains(ks, mid, k2);
    }
}

/// A strictly increasing sequence cut at `mid`: a key at most the last of
/// the low part is in the low part, a greater key in the high part.
pub proof fn lemma_cut_contains(ks: Seq<u64>, mid: int, k2: u64)
    requires
        strictly_sorted(ks),
        0 < mid < ks.len(),
        ks.contains(k2),
    ensures
        k2 <= ks[mid - 1] ==> ks.subrange(0, mid).contains(k2),
        k2 > ks[mid - 1] ==> ks.subrange(mid, ks.len() as int).contains(k2),
{
    let j = choose|j: int| 0 <= j < ks.len() && ks[j] == k2;
    if j < mid {
        assert(ks.subrange(0, mid)[j] == k2);
        if k2 > ks[mid - 1] {
            assert(ks[j] <= ks[mid - 1]);
        }
    } else {
        assert(ks.subrange(mid, ks.len() as int)[j - mid] == k2);
        if k2 <= ks[mid - 1] {
            assert(ks[mid - 1] < ks[j]);
        }
    }
}

/// A node that answers for `k` can contain it, in the sense of the node
/// algebra.
pub proof fn lemma_covering_can_contain(m: Model, p: u64, k: u64)
    requires
        m.wf(),
        m.pend is None,
        m.st.contains_key(p),
        covers(m.fs[p], k as int),
    ensures
        can_contain(m.st[p]@, k),
        m.st[p]@.link_ptr is Some ==> k <= m.st[p]@.keys.last(),
{
    assert(m.node_ok(p));
    assert(m.link_ok(p));
}

/// In a tree with no pending split only the root has the root flag, and it
/// has no right sibling.
pub proof fn lemma_root_rightmost(m: Model, p: u64)
    requires
        m.wf(),
        m.pend is None,
        m.st.contains_key(p),
        has_type(m.st[p]@.node_type, T_ROOT),
    ensures
        p == m.root,
        m.st[p]@.link_ptr is None,
{
    assert(m.node_ok(p));
    assert(m.link_ok(p));
    if let Some(q) = m.st[p]@.link_ptr {
        assert(m.node_ok(q));
    }
}

/// One step down: from an interior node that answers for `k`, the scan
/// for `k` goes down to the child at the key's lower bound, which answers
/// for `k` one level below.
pub proof fn lemma_descend(m: Model, p: u64, k: u64)
    requires
        m.wf(),
        m.pend is None,
        m.st.contains_key(p),
        covers(m.fs[p], k as int),
        m.fs[p].level > 0,
    ensures
        inode_shape(m.st[p]@),
        !m.st[p].is_leaf_node(),
        can_contain(m.st[p]@, k),
        lower_bound(m.st[p]@.keys, k) < m.st[p]@.values.len(),
        ({
            let c = m.st[p]@.values[lower_bound(m.st[p]@.keys, k)];
            &&& m.st.contains_key(c)
            &&& m.fs[c].level + 1 == m.fs[p].level
            &&& covers(m.fs[c], k as int)
        }),
{
    let n = m.st[p]@;
    assert(m.node_ok(p));
    assert(m.inode_ok(p));
    lemma_covering_can_contain(m, p, k);
    if has_type(n.node_type, T_ROOT) {
        lemma_root_rightmost(m, p);
    }
    lemma_strictly_sorted(n.keys);
    lemma_lower_bound(n.keys, k);
    let i = lower_bound(n.keys, k);
    if n.link_ptr is Some && i == n.keys.len() {
        assert(n.keys[n.keys.len() - 1] < k);
    }
    assert(m.child_ok(p, i));
}

/// At a leaf that answers for `k`, the leaf can contain `k`, and the lookup
/// yields what the map binds `k` to.
pub proof fn lemma_leaf_lookup(m: Model, p: u64, k: u64)
    requires
        m.wf(),
        m.pend is None,
        m.st.contains_key(p),
        covers(m.fs[p], k as int),
        m.fs[p].level == 0,
    ensures
        m.st[p].is_leaf_node(),
        leaf_shape(m.st[p]@),
        can_contain(m.st[p]@, k),
        leaf_get(m.st[p]@, k) == (if m.contents.contains_key(k) {
            Some(m.contents[k])
        } else {
            None
        }),
{
    let n = m.st[p]@;
    assert(m.node_ok(p));
    assert(m.leaf_ok(p));
    lemma_covering_can_contain(m, p, k);
    lemma_strictly_sorted(n.keys);
    lemma_lower_bound(n.keys, k);
    let i = lower_bound(n.keys, k);
    if m.contents.contains_key(k) {
        assert(m.fs.contains_key(p));
        assert(n.keys.contains(k));
        let j = choose|j: int| 0 <= j < n.keys.len() && n.keys[j] == k;
        assert(is_lower_bound(n.keys, k, j));
        lemma_lower_bound_unique(n.keys, k, i, j);
        lemma_entries_contains(n.keys, n.values, m.contents, j);
    } else {
        if i < n.keys.len() && n.keys[i] == k {
            lemma_entries_contains(n.keys, n.values, m.contents, i);
        }
    }
}

/// A leaf other than `p` holds no key that `p` answers for.
pub proof fn lemma_other_leaf_lacks(m: Model, p: u64, q: u64, k: u64)
    requires
        m.wf(),
        m.st.contains_key(p),
        m.st.contains_key(q),
        p != q,
        m.fs[p].level == 0,
        m.fs[q].level == 0,
        covers(m.fs[p], k as int),
    ensures
        !m.st[q]@.keys.contains(k),
{
    assert(m.node_ok(q));
    if m.st[q]@.keys.contains(k) {
        lemma_within_contains(m.st[q]@.keys, m.fs[q].lo, m.fs[q].hi, k);
        assert(m.disjoint());
        assert(m.fs.contains_key(p));
    }
}

/// The tree after binding `k` to `v` in leaf `p`, rewritten as `node2`.
pub open spec fn leaf_written(m: Model, p: u64, k: u64, v: u64, node2: Node) -> Model {
    Model { st: m.st.insert(p, node2), contents: m.contents.insert(k, v), ..m }
}

/// What a rewrite of leaf `p` that binds `k` requires.
pub open spec fn leaf_write_pre(m: Model, p: u64, k: u64, v: u64, node2: Node) -> bool {
    &&& m.wf()
    &&& m.pend is None
    &&& m.st.contains_key(p)
    &&& m.fs[p].level == 0
    &&& covers(m.fs[p], k as int)
    &&& node2.is_leaf_node()
    &&& node2@.node_type == m.st[p]@.node_type
    &&& node2@.my_ptr == m.st[p]@.my_ptr
    &&& node2@.link_ptr == m.st[p]@.link_ptr
    &&& (node2@.keys, node2@.values) == leaf_inserted(m.st[p]@, k, v)
}

proof fn lemma_leaf_write_self(m: Model, p: u64, k: u64, v: u64, node2: Node)
    requires
        leaf_write_pre(m, p, k, v, node2),
    ensures
        leaf_written(m, p, k, v, node2).node_ok(p),
{
    let m2 = leaf_written(m, p, k, v, node2);
    let n = m.st[p]@;
    let f = m.fs[p];
    assert(m.node_ok(p));
    assert(m.leaf_ok(p));
    assert(m.link_ok(p));
    lemma_leaf_inserted(n, f.lo, f.hi, m.contents, k, v);
    assert(m2.link_ok(p));
    assert(m2.leaf_ok(p));
}

proof fn lemma_leaf_write_other(m: Model, p: u64, k: u64, v: u64, node2: Node, q: u64)
    requires
        leaf_write_pre(m, p, k, v, node2),
        m.st.contains_key(q),
        q != p,
    ensures
        leaf_written(m, p, k, v, node2).node_ok(q),
{
    let m2 = leaf_written(m, p, k, v, node2);
    assert(m.node_ok(q));
    assert(m2.st[q] == m.st[q]);
    assert(m.link_ok(q));
    assert(m2.link_ok(q));
    let nq = m.st[q]@;
    if m.fs[q].level == 0 {
        assert(m.leaf_ok(q));
        lemma_other_leaf_lacks(m, p, q, k);
        lemma_entries_absent(nq.keys, nq.values, m.contents, k, v);
        assert(m2.leaf_ok(q));
    } else {
        assert(m.inode_ok(q));
        assert forall|j: int| 0 <= j < nq.values.len() implies #[trigger] m2.child_ok(q, j) by {
            assert(m.child_ok(q, j));
        }
        assert(m2.inode_ok(q));
    }
}

proof fn lemma_leaf_write_complete(m: Model, p: u64, k: u64, v: u64, node2: Node)
    requires
        leaf_write_pre(m, p, k, v, node2),
    ensures
        leaf_written(m, p, k, v, node2).complete(),
{
    let m2 = leaf_written(m, p, k, v, node2);
    let n = m.st[p]@;
    let f = m.fs[p];
    assert(m.node_ok(p));
    assert(m.leaf_ok(p));
    assert(m.link_ok(p));
    lemma_leaf_inserted(n, f.lo, f.hi, m.contents, k, v);
    assert forall|k2: u64, q: u64|
        #![trigger m2.contents.contains_key(k2), m2.fs[q]]
        m2.contents.contains_key(k2) && m2.st.contains_key(q) && m2.fs[q].level == 0 && covers(
            m2.fs[q],
            k2 as int,
        ) implies m2.st[q]@.keys.contains(k2) by {
        if k2 == k {
            if q != p {
                assert(m.disjoint());
                assert(m.fs.contains_key(p));
            }
        } else {
            assert(m.contents.contains_key(k2));
            assert(m.complete());
        }
    }
}

/// Binding `k` in the leaf that answers for it, without a split, keeps the
/// tree well formed and makes it stand for the map with `k` bound to `v`.
pub proof fn lemma_leaf_write(m: Model, p: u64, k: u64, v: u64, node2: Node)
    requires
        leaf_write_pre(m, p, k, v, node2),
    ensures
        leaf_written(m, p, k, v, node2).wf(),
{
    let m2 = leaf_written(m, p, k, v, node2);
    assert(m2.st.dom() =~= m.st.dom());
    assert forall|q: u64| #[trigger] m2.st.contains_key(q) implies m2.node_ok(q) by {
        if q == p {
            lemma_leaf_write_self(m, p, k, v, node2);
        } else {
            lemma_leaf_write_other(m, p, k, v, node2, q);
        }
    }
    lemma_leaf_write_complete(m, p, k, v, node2);
    assert(m2.disjoint());
}

/// The separator of a split: the largest key of the low half.
pub open spec fn split_sep(ks: Seq<u64>) -> int {
    ks[ks.len() / 2 - 1] as int
}

/// The tree after leaf `p` takes `k` and splits into `np` at `p` and `nq`
/// at the fresh page `q`, before the parent hears of `q`.
pub open spec fn leaf_split(m: Model, p: u64, q: u64, k: u64, v: u64, np: Node, nq: Node) -> Model {
    let f = m.fs[p];
    let sep = split_sep(leaf_inserted(m.st[p]@, k, v).0);
    Model {
        st: m.st.insert(p, np).insert(q, nq),
        fs: m.fs.insert(p, Fence { lo: f.lo, hi: sep, level: 0 }).insert(
            q,
            Fence { lo: sep, hi: f.hi, level: 0 },
        ),
        pend: Some((p, q)),
        contents: m.contents.insert(k, v),
        ..m
    }
}

/// What a split of leaf `p` that binds `k` requires of the two halves.
pub open spec fn leaf_halves(m: Model, p: u64, q: u64, k: u64, v: u64, np: Node, nq: Node) -> bool {
    let n = m.st[p]@;
    let (ks, vs) = leaf_inserted(n, k, v);
    let mid = ks.len() / 2;
    &&& ks.len() >= 2
    &&& np.is_leaf_node()
    &&& np@.node_type == n.node_type
    &&& np@.my_ptr == p
    &&& np@.link_ptr == Some(q)
    &&& np@.keys == ks.subrange(0, mid as int)
    &&& np@.values == vs.subrange(0, mid as int)
    &&& nq.is_leaf_node()
    &&& nq@.node_type == T_LEAF
    &&& nq@.my_ptr == q
    &&& nq@.link_ptr == n.link_ptr
    &&& nq@.keys == ks.subrange(mid as int, ks.len() as int)
    &&& nq@.values == vs.subrange(mid as int, vs.len() as int)
}

/// What a split of leaf `p` that binds `k` requires.
pub open spec fn leaf_split_pre(m: Model, p: u64, q: u64, k: u64, v: u64, np: Node, nq: Node) -> bool {
    &&& m.wf()
    &&& m.pend is None
    &&& m.st.contains_key(p)
    &&& !m.st.contains_key(q)
    &&& m.fs[p].level == 0
    &&& covers(m.fs[p], k as int)
    &&& leaf_halves(m, p, q, k, v, np, nq)
}

/// The keys of leaf `p` after binding `k`, cut in two, as the halves hold
/// them.
proof fn lemma_leaf_split_seqs(m: Model, p: u64, q: u64, k: u64, v: u64, np: Node, nq: Node)
    requires
        m.node_ok(p),
        m.fs[p].level == 0,
        covers(m.fs[p], k as int),
        leaf_halves(m, p, q, k, v, np, nq),
    ensures
        ({
            let n = m.st[p]@;
            let f = m.fs[p];
            let (ks, vs) = leaf_inserted(n, k, v);
            let sep = split_sep(ks);
            let c2 = m.contents.insert(k, v);
            &&& leaf_shape(np@)
            &&& leaf_shape(nq@)
            &&& keys_within(np@.keys, f.lo, sep)
            &&& keys_within(nq@.keys, sep, f.hi)
            &&& entries_in(np@.keys, np@.values, c2)
            &&& entries_in(nq@.keys, nq@.values, c2)
            &&& f.lo < sep < f.hi
            &&& np@.keys.len() > 0 && np@.keys.last() == sep
            &&& n.link_ptr is Some ==> nq@.keys.len() > 0 && nq@.keys.last() == f.hi
            &&& forall|k2: u64|
                (k2 == k || n.keys.contains(k2)) && k2 <= sep ==> #[trigger] np@.keys.contains(k2)
            &&& forall|k2: u64|
                (k2 == k || n.keys.contains(k2)) && k2 > sep ==> #[trigger] nq@.keys.contains(k2)
        }),
{
    let n = m.st[p]@;
    let f = m.fs[p];
    assert(m.leaf_ok(p));
    assert(m.link_ok(p));
    lemma_leaf_inserted(n, f.lo, f.hi, m.contents, k, v);
    let (ks, vs) = leaf_inserted(n, k, v);
    lemma_cut(ks, vs, m.contents.insert(k, v), f.lo, f.hi, (ks.len() / 2) as int);
}

proof fn lemma_leaf_split_halves(m: Model, p: u64, q: u64, k: u64, v: u64, np: Node, nq: Node)
    requires
        leaf_split_pre(m, p, q, k, v, np, nq),
    ensures
        leaf_split(m, p, q, k, v, np, nq).node_ok(p),
        leaf_split(m, p, q, k, v, np, nq).node_ok(q),
{
    let m2 = leaf_split(m, p, q, k, v, np, nq);
    let n = m.st[p]@;
    assert(m.node_ok(p));
    assert(m.link_ok(p));
    lemma_leaf_split_seqs(m, p, q, k, v, np, nq);
    lemma_type_constants();
    assert(m2.link_ok(p));
    assert(m2.leaf_ok(p));
    assert(m2.node_ok(p));
    if let Some(r) = n.link_ptr {
        assert(r != p);
    }
    assert(m2.link_ok(q));
    assert(m2.leaf_ok(q));
}

proof fn lemma_leaf_split_other(m: Model, p: u64, q: u64, k: u64, v: u64, np: Node, nq: Node, r: u64)
    requires
        leaf_split_pre(m, p, q, k, v, np, nq),
        m.st.contains_key(r),
        r != p,
    ensures
        leaf_split(m, p, q, k, v, np, nq).node_ok(r),
{
    let m2 = leaf_split(m, p, q, k, v, np, nq);
    assert(m.node_ok(r));
    assert(r != q);
    assert(m2.st[r] == m.st[r]);
    assert(m.link_ok(r));
    assert(m2.link_ok(r));
    let nr = m.st[r]@;
    if m.fs[r].level == 0 {
        assert(m.leaf_ok(r));
        lemma_other_leaf_lacks(m, p, r, k);
        lemma_entries_absent(nr.keys, nr.values, m.contents, k, v);
        assert(m2.leaf_ok(r));
    } else {
        assert(m.inode_ok(r));
        assert forall|j: int| 0 <= j < nr.values.len() implies #[trigger] m2.child_ok(r, j) by {
            assert(m.child_ok(r, j));
        }
        assert(m2.inode_ok(r));
    }
}

proof fn lemma_leaf_split_complete_at(
    m: Model,
    p: u64,
    q: u64,
    k: u64,
    v: u64,
    np: Node,
    nq: Node,
    k2: u64,
    r: u64,
)
    requires
        leaf_split_pre(m, p, q, k, v, np, nq),
        leaf_split(m, p, q, k, v, np, nq).contents.contains_key(k2),
        leaf_split(m, p, q, k, v, np, nq).st.contains_key(r),
        leaf_split(m, p, q, k, v, np, nq).fs[r].level == 0,
        covers(leaf_split(m, p, q, k, v, np, nq).fs[r], k2 as int),
    ensures
        leaf_split(m, p, q, k, v, np, nq).st[r]@.keys.contains(k2),
{
    let m2 = leaf_split(m, p, q, k, v, np, nq);
    let n = m.st[p]@;
    assert(m.node_ok(p));
    lemma_leaf_split_seqs(m, p, q, k, v, np, nq);
    assert(m.complete());
    assert(m.disjoint());
    let sep = split_sep(leaf_inserted(n, k, v).0);
    if r == p || r == q {
        if k2 != k {
            assert(m.contents.contains_key(k2));
            assert(covers(m.fs[p], k2 as int));
            assert(m.fs.contains_key(p));
            assert(n.keys.contains(k2));
        }
        if r == p {
            assert(m2.st[r] == np);
            assert(k2 <= sep);
            assert(np@.keys.contains(k2));
        } else {
            assert(m2.st[r] == nq);
            assert(k2 > sep);
            assert(nq@.keys.contains(k2));
        }
    } else {
        assert(m.st.contains_key(r));
        assert(m2.st[r] == m.st[r]);
        assert(m2.fs[r] == m.fs[r]);
        if k2 != k {
            assert(m.contents.contains_key(k2));
            assert(m.fs.contains_key(r));
            assert(m.st[r]@.keys.contains(k2));
        } else {
            assert(m.fs.contains_key(p));
            assert(m.fs.contains_key(r));
            assert(false);
        }
    }
}

proof fn lemma_leaf_split_complete(m: Model, p: u64, q: u64, k: u64, v: u64, np: Node, nq: Node)
    requires
        leaf_split_pre(m, p, q, k, v, np, nq),
    ensures
        leaf_split(m, p, q, k, v, np, nq).complete(),
        leaf_split(m, p, q, k, v, np, nq).disjoint(),
{
    let m2 = leaf_split(m, p, q, k, v, np, nq);
    let n = m.st[p]@;
    let f = m.fs[p];
    assert(m.node_ok(p));
    lemma_leaf_split_seqs(m, p, q, k, v, np, nq);
    assert forall|k2: u64, r: u64|
        #![trigger m2.contents.contains_key(k2), m2.fs[r]]
        m2.contents.contains_key(k2) && m2.st.contains_key(r) && m2.fs[r].level == 0 && covers(
            m2.fs[r],
            k2 as int,
        ) implies m2.st[r]@.keys.contains(k2) by {
        lemma_leaf_split_complete_at(m, p, q, k, v, np, nq, k2, r);
    }
    assert forall|a: u64, b: u64|
        #![trigger m2.fs[a], m2.fs[b]]
        m2.st.contains_key(a) && m2.st.contains_key(b) && a != b && m2.fs[a].level
            == m2.fs[b].level implies m2.fs[a].hi <= m2.fs[b].lo || m2.fs[b].hi <= m2.fs[a].lo by {
        assert(m.disjoint());
        assert(m.fs.contains_key(p));
        if a != p && a != q {
            assert(m.fs.contains_key(a));
        }
        if b != p && b != q {
            assert(m.fs.contains_key(b));
        }
    }
}

/// Splitting the leaf that answers for `k` as it takes `k` keeps the tree
/// well formed, with the split pending at the parent, and makes it stand
/// for the map with `k` bound to `v`.
pub proof fn lemma_leaf_split(m: Model, p: u64, q: u64, k: u64, v: u64, np: Node, nq: Node)
    requires
        leaf_split_pre(m, p, q, k, v, np, nq),
    ensures
        leaf_split(m, p, q, k, v, np, nq).wf(),
{
    let m2 = leaf_split(m, p, q, k, v, np, nq);
    assert(m2.st.dom() =~= m.st.dom().insert(q));
    assert(m2.fs.dom() =~= m.fs.dom().insert(q));
    assert forall|r: u64| #[trigger] m2.st.contains_key(r) implies m2.node_ok(r) by {
        if r == p || r == q {
            lemma_leaf_split_halves(m, p, q, k, v, np, nq);
        } else {
            lemma_leaf_split_other(m, p, q, k, v, np, nq, r);
        }
    }
    lemma_leaf_split_complete(m, p, q, k, v, np, nq);
    assert(m.node_ok(p));
    assert forall|r: u64|
        #[trigger] m2.st.contains_key(r) && m2.fs[r].level == m2.height implies r == m2.root
        || m2.pend == Some((m2.root, r)) by {
        if r == q {
            assert(m.st.contains_key(p));
        }
    }
    assert forall|a: u64, i: int|
        m2.st.contains_key(a) && m2.fs[a].level > 0 && 0 <= i < m2.st[a]@.values.len()
        implies #[trigger] m2.st[a]@.values[i] != q by {
        assert(m.node_ok(a));
        assert(m.inode_ok(a));
        assert(m.child_ok(a, i));
    }
    assert(m2.pend_ok());
}

/// Where a split is pending, the parent that answers for `k` one level up
/// holds the left half at the lower bound of the separator, with the
/// bounds that now belong to both halves together; the separator lies
/// within the parent.
pub proof fn lemma_parent_slot(m: Model, pp: u64, k: u64)
    requires
        m.wf(),
        m.pend is Some,
        m.st.contains_key(pp),
        m.fs[pp].level == m.fs[m.pend_left()].level + 1,
        covers(m.fs[pp], k as int),
        m.fs[m.pend_left()].lo < k <= m.fs[m.pend_right()].hi,
    ensures
        ({
            let c = m.pend_left();
            let c2 = m.pend_right();
            let n = m.st[pp]@;
            let f = m.fs[pp];
            let sep = m.st[c]@.keys.last();
            let j = lower_bound(n.keys, sep);
            &&& !m.st[pp].is_leaf_node()
            &&& sep == m.fs[c].hi
            &&& m.fs[c2].lo == m.fs[c].hi
            &&& covers(f, sep as int)
            &&& can_contain(n, sep)
            &&& strictly_sorted(n.keys)
            &&& 0 <= j < n.values.len()
            &&& n.values[j] == c
            &&& child_lo(n, f, j) == m.fs[c].lo
            &&& child_hi(n, f, j) == m.fs[c2].hi
            &&& is_lower_bound(n.keys, sep, j)
            &&& !(j < n.keys.len() && n.keys[j] == sep)
        }),
{
    let c = m.pend_left();
    let c2 = m.pend_right();
    let n = m.st[pp]@;
    let f = m.fs[pp];
    assert(m.pend_ok());
    assert(m.node_ok(pp));
    assert(m.inode_ok(pp));
    assert(m.link_ok(pp));
    assert(m.node_ok(c));
    assert(m.link_ok(c));
    assert(m.node_ok(c2));
    let sep = m.st[c]@.keys.last();
    lemma_strictly_sorted(n.keys);
    lemma_lower_bound(n.keys, k);
    let j = lower_bound(n.keys, k);
    if n.link_ptr is Some && j == n.keys.len() {
        lemma_within_contains(n.keys, f.lo, f.hi, k);
        assert(n.keys[n.keys.len() - 1] < k);
    }
    assert(m.child_ok(pp, j));
    let x = n.values[j];
    if x != c {
        assert(x != c2);
        assert(m.disjoint());
        assert(m.fs.contains_key(c));
        assert(m.fs.contains_key(c2));
        assert(m.fs.contains_key(x));
        assert(false);
    }
    reveal(keys_within);
    assert(is_lower_bound(n.keys, sep, j)) by {
        assert forall|a: int| 0 <= a < j implies n.keys[a] < sep by {
            assert(n.keys[a] <= n.keys[j - 1]);
        }
        assert forall|a: int| j <= a < n.keys.len() implies sep <= n.keys[a] by {
            assert(n.keys[j] <= n.keys[a]);
        }
    }
    lemma_lower_bound(n.keys, sep);
    lemma_lower_bound_unique(n.keys, sep, j, lower_bound(n.keys, sep));
    if j > 0 {
        assert(f.lo < n.keys[j - 1]);
    }
    if j < n.keys.len() {
        assert(n.keys[j] <= f.hi);
    }
}

/// The child bounds of an interior node after the separator `sep` and the
/// child `c2` go in at the separator's lower bound `j`: the children before
/// `j` keep theirs, the child at `j` now ends at `sep`, `c2` answers for
/// the rest of what the child at `j` answered for, and the children after
/// move one place right with their bounds.
pub proof fn lemma_inode_inserted(n: NodeView, f: Fence, sep: u64, c2: u64, j: int)
    requires
        strictly_sorted(n.keys),
        keys_within(n.keys, f.lo, f.hi),
        covers(f, sep as int),
        0 <= j < n.values.len(),
        n.keys.len() <= n.values.len() <= n.keys.len() + 1,
        is_lower_bound(n.keys, sep, j),
        !(j < n.keys.len() && n.keys[j] == sep),
        lower_bound(n.keys, sep) == j,
    ensures
        ({
            let (ks, vs) = inode_inserted(n, sep, c2);
            let n2 = NodeView { keys: ks, values: vs, ..n };
            &&& strictly_sorted(ks)
            &&& keys_within(ks, f.lo, f.hi)
            &&& ks.len() == n.keys.len() + 1
            &&& vs.len() == n.values.len() + 1
            &&& n.keys.len() > 0 && j < n.keys.len() ==> ks.last() == n.keys.last()
            &&& forall|i: int|
                0 <= i < vs.len() ==> {
                    &&& i < j ==> vs[i] == n.values[i] && child_lo(n2, f, i) == child_lo(n, f, i)
                        && child_hi(n2, f, i) == child_hi(n, f, i)
                    &&& i == j ==> vs[i] == n.values[j] && child_lo(n2, f, i) == child_lo(n, f, j)
                        && child_hi(n2, f, i) == sep
                    &&& i == j + 1 ==> vs[i] == c2 && child_lo(n2, f, i) == sep && child_hi(
                        n2,
                        f,
                        i,
                    ) == child_hi(n, f, j)
                    &&& i > j + 1 ==> vs[i] == n.values[i - 1] && child_lo(n2, f, i) == child_lo(
                        n,
                        f,
                        i - 1,
                    ) && child_hi(n2, f, i) == child_hi(n, f, i - 1)
                }
        }),
{
    reveal(keys_within);
    lemma_insert_sorted(n.keys, sep, j);
    let (ks, vs) = inode_inserted(n, sep, c2);
    assert forall|a: int| 0 <= a < ks.len() implies f.lo < #[trigger] ks[a] <= f.hi by {
        if a < j {
            assert(ks[a] == n.keys[a]);
        } else if a > j {
            assert(ks[a] == n.keys[a - 1]);
        }
    }
    let n2 = NodeView { keys: ks, values: vs, ..n };
    assert forall|i: int| 0 <= i < vs.len() implies {
        &&& i < j ==> vs[i] == n.values[i] && child_lo(n2, f, i) == child_lo(n, f, i)
            && child_hi(n2, f, i) == child_hi(n, f, i)
        &&& i == j ==> vs[i] == n.values[j] && child_lo(n2, f, i) == child_lo(n, f, j)
            && child_hi(n2, f, i) == sep
        &&& i == j + 1 ==> vs[i] == c2 && child_lo(n2, f, i) == sep && child_hi(n2, f, i)
            == child_hi(n, f, j)
        &&& i > j + 1 ==> vs[i] == n.values[i - 1] && child_lo(n2, f, i) == child_lo(n, f, i - 1)
            && child_hi(n2, f, i) == child_hi(n, f, i - 1)
    } by {
        if i < j {
            if i > 0 {
                assert(ks[i - 1] == n.keys[i - 1]);
            }
            assert(ks[i] == n.keys[i]);
        } else if i == j {
            if i > 0 {
                assert(ks[i - 1] == n.keys[i - 1]);
            }
        } else if i == j + 1 {
            if j < n.keys.len() {
                assert(ks[j + 1] == n.keys[j]);
            }
        } else {
            if i - 1 < ks.len() {
                assert(ks[i - 1] == n.keys[i - 2]);
            }
            if i < ks.len() {
                assert(ks[i] == n.keys[i - 1]);
            }
        }
    }
    if n.keys.len() > 0 && j < n.keys.len() {
        assert(ks.last() == n.keys[n.keys.len() - 1]);
    }
}

/// The tree after the pending split reaches parent `pp`, rewritten as
/// `np` without a split of its own.
pub open spec fn parent_written(m: Model, pp: u64, np: Node) -> Model {
    Model { st: m.st.insert(pp, np), pend: None, ..m }
}

/// What the rewrite of parent `pp` requires.
pub open spec fn parent_write_pre(m: Model, pp: u64, k: u64, np: Node) -> bool {
    let c = m.pend_left();
    let c2 = m.pend_right();
    let sep = m.st[c]@.keys.last();
    &&& m.wf()
    &&& m.pend is Some
    &&& m.st.contains_key(pp)
    &&& m.fs[pp].level == m.fs[c].level + 1
    &&& covers(m.fs[pp], k as int)
    &&& m.fs[c].lo < k <= m.fs[c2].hi
    &&& !np.is_leaf_node()
    &&& np@.node_type == m.st[pp]@.node_type
    &&& np@.my_ptr == m.st[pp]@.my_ptr
    &&& np@.link_ptr == m.st[pp]@.link_ptr
    &&& (np@.keys, np@.values) == inode_inserted(m.st[pp]@, sep, c2)
}

/// No parent but `pp` holds the left half of the pending split.
proof fn lemma_single_parent(m: Model, pp: u64, k: u64, r: u64, i: int)
    requires
        m.wf(),
        m.pend is Some,
        m.st.contains_key(pp),
        m.fs[pp].level == m.fs[m.pend_left()].level + 1,
        covers(m.fs[pp], k as int),
        m.fs[m.pend_left()].lo < k <= m.fs[m.pend_right()].hi,
        m.st.contains_key(r),
        r != pp,
        m.fs[r].level > 0,
        0 <= i < m.st[r]@.values.len(),
    ensures
        m.st[r]@.values[i] != m.pend_left(),
{
    let c = m.pend_left();
    let c2 = m.pend_right();
    let nr = m.st[r]@;
    let fr = m.fs[r];
    assert(m.node_ok(r));
    assert(m.inode_ok(r));
    assert(m.child_ok(r, i));
    if nr.values[i] == c {
        reveal(keys_within);
        if i > 0 {
            assert(fr.lo < nr.keys[i - 1]);
        }
        if i < nr.keys.len() {
            assert(nr.keys[i] <= fr.hi);
        }
        assert(covers(fr, k as int));
        assert(m.node_ok(c));
        assert(m.disjoint());
        assert(m.fs.contains_key(pp));
        assert(m.fs.contains_key(r));
    }
}

/// The children of parent `pp` once the pending split has reached it: each
/// is in the store one level below, with fences that match the parent's
/// separators.
proof fn lemma_inserted_children(m: Model, pp: u64, k: u64)
    requires
        m.wf(),
        m.pend is Some,
        m.st.contains_key(pp),
        m.fs[pp].level == m.fs[m.pend_left()].level + 1,
        covers(m.fs[pp], k as int),
        m.fs[m.pend_left()].lo < k <= m.fs[m.pend_right()].hi,
    ensures
        ({
            let c = m.pend_left();
            let c2 = m.pend_right();
            let n = m.st[pp]@;
            let f = m.fs[pp];
            let sep = m.st[c]@.keys.last();
            let (ks, vs) = inode_inserted(n, sep, c2);
            let n2 = NodeView { keys: ks, values: vs, ..n };
            &&& strictly_sorted(ks)
            &&& keys_within(ks, f.lo, f.hi)
            &&& vs.len() == ks.len() + if n.link_ptr is None { 1int } else { 0int }
            &&& n.link_ptr is Some ==> ks.len() > 0 && ks.last() == f.hi
            &&& sep == m.fs[c].hi
            &&& lower_bound(n.keys, sep) < n.values.len()
            &&& forall|i: int|
                #![trigger vs[i]]
                0 <= i < vs.len() ==> {
                    &&& m.st.contains_key(vs[i])
                    &&& vs[i] != pp
                    &&& m.fs[vs[i]].level + 1 == f.level
                    &&& m.fs[vs[i]].lo == child_lo(n2, f, i)
                    &&& m.fs[vs[i]].hi == child_hi(n2, f, i)
                }
        }),
{
    let c = m.pend_left();
    let c2 = m.pend_right();
    let n = m.st[pp]@;
    let f = m.fs[pp];
    let sep = m.st[c]@.keys.last();
    lemma_parent_slot(m, pp, k);
    let j = lower_bound(n.keys, sep);
    assert(m.node_ok(pp));
    assert(m.inode_ok(pp));
    assert(m.link_ok(pp));
    lemma_inode_inserted(n, f, sep, c2, j);
    let (ks, vs) = inode_inserted(n, sep, c2);
    let n2 = NodeView { keys: ks, values: vs, ..n };
    assert(m.node_ok(c));
    assert(m.link_ok(c));
    assert forall|i: int| 0 <= i < vs.len() implies {
        &&& m.st.contains_key(#[trigger] vs[i])
        &&& vs[i] != pp
        &&& m.fs[vs[i]].level + 1 == f.level
        &&& m.fs[vs[i]].lo == child_lo(n2, f, i)
        &&& m.fs[vs[i]].hi == child_hi(n2, f, i)
    } by {
        if i < j {
            assert(m.child_ok(pp, i));
            if n.values[i] == c {
                assert(m.child_ok(pp, j));
                lemma_strictly_sorted(n.keys);
                if i > 0 {
                    assert(n.keys[i - 1] < n.keys[j - 1]);
                } else {
                    reveal(keys_within);
                    assert(f.lo < n.keys[j - 1]);
                }
            }
        } else if i == j {
        } else if i == j + 1 {
        } else {
            assert(m.child_ok(pp, i - 1));
            if n.values[i - 1] == c {
                lemma_strictly_sorted(n.keys);
                assert(n.keys[j] < n.keys[i - 2] || n.keys[j] == n.keys[i - 2]);
            }
        }
    }
}

proof fn lemma_parent_write_self(m: Model, pp: u64, k: u64, np: Node)
    requires
        parent_write_pre(m, pp, k, np),
    ensures
        parent_written(m, pp, np).node_ok(pp),
{
    let m2 = parent_written(m, pp, np);
    assert(m.node_ok(pp));
    assert(m.link_ok(pp));
    lemma_inserted_children(m, pp, k);
    assert(m2.link_ok(pp));
    let n2 = np@;
    assert forall|i: int| 0 <= i < n2.values.len() implies #[trigger] m2.child_ok(pp, i) by {
        assert(n2.values[i] == n2.values[i]);
    }
    assert(m2.inode_ok(pp));
}

/// The root is not the left half of a split that is pending below a
/// parent.
proof fn lemma_pend_below_root(m: Model, pp: u64)
    requires
        m.wf(),
        m.pend is Some,
        m.st.contains_key(pp),
        m.fs[pp].level == m.fs[m.pend_left()].level + 1,
    ensures
        m.pend_left() != m.root,
        m.pend_right() != m.root,
        m.fs[m.pend_left()].level < m.height,
{
    assert(m.node_ok(pp));
    assert(m.pend_ok());
}

proof fn lemma_parent_write_other(m: Model, pp: u64, k: u64, np: Node, r: u64)
    requires
        parent_write_pre(m, pp, k, np),
        m.st.contains_key(r),
        r != pp,
    ensures
        parent_written(m, pp, np).node_ok(r),
{
    let m2 = parent_written(m, pp, np);
    let c = m.pend_left();
    lemma_pend_below_root(m, pp);
    assert(m.node_ok(r));
    assert(m2.st[r] == m.st[r]);
    assert(m.link_ok(r));
    assert(m2.link_ok(r));
    let nr = m.st[r]@;
    if m.fs[r].level == 0 {
        assert(m.leaf_ok(r));
        assert(m2.leaf_ok(r));
    } else {
        assert(m.inode_ok(r));
        assert forall|i: int| 0 <= i < nr.values.len() implies #[trigger] m2.child_ok(r, i) by {
            assert(m.child_ok(r, i));
            lemma_single_parent(m, pp, k, r, i);
        }
        assert(m2.inode_ok(r));
    }
}

/// The pending split reaching the parent that answers for `k`, without a
/// split of the parent, leaves a well-formed tree with nothing pending and
/// the same map.
pub proof fn lemma_parent_write(m: Model, pp: u64, k: u64, np: Node)
    requires
        parent_write_pre(m, pp, k, np),
    ensures
        parent_written(m, pp, np).wf(),
        parent_written(m, pp, np).contents == m.contents,
        parent_written(m, pp, np).root == m.root,
        parent_written(m, pp, np).height == m.height,
{
    let m2 = parent_written(m, pp, np);
    lemma_pend_below_root(m, pp);
    assert(m2.st.dom() =~= m.st.dom());
    assert forall|r: u64| #[trigger] m2.st.contains_key(r) implies m2.node_ok(r) by {
        if r == pp {
            lemma_parent_write_self(m, pp, k, np);
        } else {
            lemma_parent_write_other(m, pp, k, np, r);
        }
    }
    assert(m.node_ok(pp));
    assert forall|k2: u64, r: u64|
        #![trigger m2.contents.contains_key(k2), m2.fs[r]]
        m2.contents.contains_key(k2) && m2.st.contains_key(r) && m2.fs[r].level == 0 && covers(
            m2.fs[r],
            k2 as int,
        ) implies m2.st[r]@.keys.contains(k2) by {
        assert(m.complete());
        assert(m.fs.contains_key(r));
    }
    assert(m2.complete());
    assert(m2.disjoint());
}

/// An interior node's keys and children cut at `mid`: the low part keeps
/// the children before the cut with their bounds, under the fence that
/// ends at the last low key; the high part keeps the rest, shifted.
pub proof fn lemma_cut_children(n2: NodeView, f: Fence, mid: int)
    requires
        strictly_sorted(n2.keys),
        keys_within(n2.keys, f.lo, f.hi),
        0 < mid < n2.keys.len(),
        n2.keys.len() <= n2.values.len() <= n2.keys.len() + 1,
    ensures
        ({
            let sep = n2.keys[mid - 1] as int;
            let low = NodeView {
                keys: n2.keys.subrange(0, mid),
                values: n2.values.subrange(0, mid),
                ..n2
            };
            let high = NodeView {
                keys: n2.keys.subrange(mid, n2.keys.len() as int),
                values: n2.values.subrange(mid, n2.values.len() as int),
                ..n2
            };
            let fl = Fence { lo: f.lo, hi: sep, level: f.level };
            let fh = Fence { lo: sep, hi: f.hi, level: f.level };
            &&& strictly_sorted(low.keys)
            &&& strictly_sorted(high.keys)
            &&& keys_within(low.keys, f.lo, sep)
            &&& keys_within(high.keys, sep, f.hi)
            &&& f.lo < sep < f.hi
            &&& low.keys.len() > 0 && low.keys.last() == sep
            &&& high.keys.len() > 0 && high.keys.last() == n2.keys.last()
            &&& forall|i: int|
                0 <= i < mid ==> child_lo(low, fl, i) == child_lo(n2, f, i) && #[trigger] child_hi(
                    low,
                    fl,
                    i,
                ) == child_hi(n2, f, i)
            &&& forall|i: int|
                0 <= i < high.values.len() ==> child_lo(high, fh, i) == child_lo(n2, f, i + mid)
                    && #[trigger] child_hi(high, fh, i) == child_hi(n2, f, i + mid)
        }),
{
    reveal(keys_within);
    let ks = n2.keys;
    let sep = ks[mid - 1] as int;
    let low = ks.subrange(0, mid);
    let high = ks.subrange(mid, ks.len() as int);
    assert(ks[mid - 1] < ks[mid]);
    assert forall|a: int| 0 <= a < low.len() implies f.lo < #[trigger] low[a] <= sep by {
        assert(low[a] == ks[a]);
    }
    assert forall|a: int| 0 <= a < high.len() implies sep < #[trigger] high[a] <= f.hi by {
        assert(high[a] == ks[a + mid]);
    }
    let lown = NodeView { keys: low, values: n2.values.subrange(0, mid), ..n2 };
    let highn = NodeView {
        keys: high,
        values: n2.values.subrange(mid, n2.values.len() as int),
        ..n2
    };
    let fl = Fence { lo: f.lo, hi: sep, level: f.level };
    let fh = Fence { lo: sep, hi: f.hi, level: f.level };
    assert forall|i: int| 0 <= i < mid implies child_lo(lown, fl, i) == child_lo(n2, f, i)
        && #[trigger] child_hi(lown, fl, i) == child_hi(n2, f, i) by {
        if i > 0 {
            assert(low[i - 1] == ks[i - 1]);
        }
        assert(low[i] == ks[i]);
    }
    assert forall|i: int| 0 <= i < highn.values.len() implies child_lo(highn, fh, i) == child_lo(
        n2,
        f,
        i + mid,
    ) && #[trigger] child_hi(highn, fh, i) == child_hi(n2, f, i + mid) by {
        if i > 0 {
            assert(high[i - 1] == ks[i - 1 + mid]);
        }
        if i < high.len() {
            assert(high[i] == ks[i + mid]);
        }
    }
}

/// The tree after the pending split reaches parent `pp`, which splits in
/// turn into `np` at `pp` and `nq` at the fresh page `q`.
pub open spec fn parent_split(m: Model, pp: u64, q: u64, np: Node, nq: Node) -> Model {
    let f = m.fs[pp];
    let sep = m.st[m.pend_left()]@.keys.last();
    let sep2 = split_sep(inode_inserted(m.st[pp]@, sep, m.pend_right()).0);
    Model {
        st: m.st.insert(pp, np).insert(q, nq),
        fs: m.fs.insert(pp, Fence { lo: f.lo, hi: sep2, level: f.level }).insert(
            q,
            Fence { lo: sep2, hi: f.hi, level: f.level },
        ),
        pend: Some((pp, q)),
        ..m
    }
}

/// What the split of parent `pp` requires of the two halves.
pub open spec fn parent_halves(m: Model, pp: u64, q: u64, np: Node, nq: Node) -> bool {
    let n = m.st[pp]@;
    let sep = m.st[m.pend_left()]@.keys.last();
    let (ks, vs) = inode_inserted(n, sep, m.pend_right());
    let mid = ks.len() / 2;
    &&& ks.len() >= 2
    &&& !np.is_leaf_node()
    &&& np@.node_type == n.node_type
    &&& np@.my_ptr == pp
    &&& np@.link_ptr == Some(q)
    &&& np@.keys == ks.subrange(0, mid as int)
    &&& np@.values == vs.subrange(0, mid as int)
    &&& !nq.is_leaf_node()
    &&& nq@.node_type == T_INODE
    &&& nq@.my_ptr == q
    &&& nq@.link_ptr == n.link_ptr
    &&& nq@.keys == ks.subrange(mid as int, ks.len() as int)
    &&& nq@.values == vs.subrange(mid as int, vs.len() as int)
}

/// What the split of parent `pp` requires.
pub open spec fn parent_split_pre(m: Model, pp: u64, k: u64, q: u64, np: Node, nq: Node) -> bool {
    &&& m.wf()
    &&& m.pend is Some
    &&& m.st.contains_key(pp)
    &&& !m.st.contains_key(q)
    &&& m.fs[pp].level == m.fs[m.pend_left()].level + 1
    &&& covers(m.fs[pp], k as int)
    &&& m.fs[m.pend_left()].lo < k <= m.fs[m.pend_right()].hi
    &&& parent_halves(m, pp, q, np, nq)
}

proof fn lemma_parent_split_low_children(m: Model, pp: u64, k: u64, q: u64, np: Node, nq: Node)
    requires
        parent_split_pre(m, pp, k, q, np, nq),
    ensures
        parent_split(m, pp, q, np, nq).inode_ok(pp),
{
    let m2 = parent_split(m, pp, q, np, nq);
    let n = m.st[pp]@;
    let f = m.fs[pp];
    let sep = m.st[m.pend_left()]@.keys.last();
    let (ks, vs) = inode_inserted(n, sep, m.pend_right());
    let n2 = NodeView { keys: ks, values: vs, ..n };
    let mid = (ks.len() / 2) as int;
    lemma_inserted_children(m, pp, k);
    lemma_cut_children(n2, f, mid);
    let fl = Fence { lo: f.lo, hi: ks[mid - 1] as int, level: f.level };
    assert(m2.fs[pp] == fl);
    assert(m2.st[pp] == np);
    assert forall|i: int| 0 <= i < np@.values.len() implies #[trigger] m2.child_ok(pp, i) by {
        assert(np@.values[i] == vs[i]);
        assert(child_hi(np@, fl, i) == child_hi(n2, f, i));
        assert(child_lo(np@, fl, i) == child_lo(n2, f, i));
    }
}

proof fn lemma_parent_split_low(m: Model, pp: u64, k: u64, q: u64, np: Node, nq: Node)
    requires
        parent_split_pre(m, pp, k, q, np, nq),
    ensures
        parent_split(m, pp, q, np, nq).node_ok(pp),
{
    let m2 = parent_split(m, pp, q, np, nq);
    let n = m.st[pp]@;
    let f = m.fs[pp];
    let sep = m.st[m.pend_left()]@.keys.last();
    let (ks, vs) = inode_inserted(n, sep, m.pend_right());
    let n2 = NodeView { keys: ks, values: vs, ..n };
    let mid = (ks.len() / 2) as int;
    assert(m.node_ok(pp));
    lemma_inserted_children(m, pp, k);
    lemma_cut_children(n2, f, mid);
    assert(m2.link_ok(pp));
    lemma_parent_split_low_children(m, pp, k, q, np, nq);
}

proof fn lemma_parent_split_high(m: Model, pp: u64, k: u64, q: u64, np: Node, nq: Node)
    requires
        parent_split_pre(m, pp, k, q, np, nq),
    ensures
        parent_split(m, pp, q, np, nq).node_ok(q),
{
    let m2 = parent_split(m, pp, q, np, nq);
    let n = m.st[pp]@;
    let f = m.fs[pp];
    let sep = m.st[m.pend_left()]@.keys.last();
    let (ks, vs) = inode_inserted(n, sep, m.pend_right());
    let n2 = NodeView { keys: ks, values: vs, ..n };
    let mid = (ks.len() / 2) as int;
    assert(m.node_ok(pp));
    assert(m.link_ok(pp));
    lemma_inserted_children(m, pp, k);
    lemma_cut_children(n2, f, mid);
    lemma_type_constants();
    let fh = Fence { lo: ks[mid - 1] as int, hi: f.hi, level: f.level };
    assert(m2.fs[q] == fh);
    if let Some(r) = n.link_ptr {
        assert(r != pp);
        assert(m.node_ok(r));
    }
    assert(q != m.root);
    assert(m2.link_ok(q));
    assert forall|i: int| 0 <= i < nq@.values.len() implies #[trigger] m2.child_ok(q, i) by {
        assert(nq@.values[i] == vs[i + mid]);
        assert(child_hi(nq@, fh, i) == child_hi(n2, f, i + mid));
    }
    assert(m2.inode_ok(q));
}

proof fn lemma_parent_split_other(m: Model, pp: u64, k: u64, q: u64, np: Node, nq: Node, r: u64)
    requires
        parent_split_pre(m, pp, k, q, np, nq),
        m.st.contains_key(r),
        r != pp,
    ensures
        parent_split(m, pp, q, np, nq).node_ok(r),
{
    let m2 = parent_split(m, pp, q, np, nq);
    lemma_pend_below_root(m, pp);
    assert(m.node_ok(r));
    assert(r != q);
    assert(m2.st[r] == m.st[r]);
    assert(m.link_ok(r));
    assert(m2.link_ok(r));
    let nr = m.st[r]@;
    if m.fs[r].level == 0 {
        assert(m.leaf_ok(r));
        assert(m2.leaf_ok(r));
    } else {
        assert(m.inode_ok(r));
        assert forall|i: int| 0 <= i < nr.values.len() implies #[trigger] m2.child_ok(r, i) by {
            assert(m.child_ok(r, i));
            lemma_single_parent(m, pp, k, r, i);
        }
        assert(m2.inode_ok(r));
    }
}

/// The pending split reaching the parent that answers for `k`, where the
/// parent splits too, leaves a well-formed tree whose pending split is the
/// parent's, with the same map.
pub proof fn lemma_parent_split(m: Model, pp: u64, k: u64, q: u64, np: Node, nq: Node)
    requires
        parent_split_pre(m, pp, k, q, np, nq),
    ensures
        parent_split(m, pp, q, np, nq).wf(),
        parent_split(m, pp, q, np, nq).contents == m.contents,
        parent_split(m, pp, q, np, nq).root == m.root,
        parent_split(m, pp, q, np, nq).height == m.height,
{
    let m2 = parent_split(m, pp, q, np, nq);
    let n = m.st[pp]@;
    let f = m.fs[pp];
    lemma_pend_below_root(m, pp);
    lemma_inserted_children(m, pp, k);
    let sep = m.st[m.pend_left()]@.keys.last();
    let (ks, vs) = inode_inserted(n, sep, m.pend_right());
    let n2 = NodeView { keys: ks, values: vs, ..n };
    lemma_cut_children(n2, f, (ks.len() / 2) as int);
    assert(m2.st.dom() =~= m.st.dom().insert(q));
    assert(m2.fs.dom() =~= m.fs.dom().insert(q));
    assert forall|r: u64| #[trigger] m2.st.contains_key(r) implies m2.node_ok(r) by {
        if r == pp {
            lemma_parent_split_low(m, pp, k, q, np, nq);
        } else if r == q {
            lemma_parent_split_high(m, pp, k, q, np, nq);
        } else {
            lemma_parent_split_other(m, pp, k, q, np, nq, r);
        }
    }
    assert(m.node_ok(pp));
    assert forall|k2: u64, r: u64|
        #![trigger m2.contents.contains_key(k2), m2.fs[r]]
        m2.contents.contains_key(k2) && m2.st.contains_key(r) && m2.fs[r].level == 0 && covers(
            m2.fs[r],
            k2 as int,
        ) implies m2.st[r]@.keys.contains(k2) by {
        assert(m.complete());
        assert(m.fs.contains_key(r));
    }
    assert(m2.complete());
    assert forall|a: u64, b: u64|
        #![trigger m2.fs[a], m2.fs[b]]
        m2.st.contains_key(a) && m2.st.contains_key(b) && a != b && m2.fs[a].level
            == m2.fs[b].level implies m2.fs[a].hi <= m2.fs[b].lo || m2.fs[b].hi <= m2.fs[a].lo by {
        assert(m.disjoint());
        assert(m.fs.contains_key(pp));
        if a != pp && a != q {
            assert(m.fs.contains_key(a));
        }
        if b != pp && b != q {
            assert(m.fs.contains_key(b));
        }
    }
    assert forall|r: u64|
        #[trigger] m2.st.contains_key(r) && m2.fs[r].level == m2.height implies r == m2.root
        || m2.pend == Some((m2.root, r)) by {
        if r == q {
            assert(m.st.contains_key(pp));
        }
    }
    assert forall|a: u64, i: int|
        m2.st.contains_key(a) && m2.fs[a].level > 0 && 0 <= i < m2.st[a]@.values.len()
        implies #[trigger] m2.st[a]@.values[i] != q by {
        if a == pp {
            assert(m2.st[a]@.values[i] == vs[i]);
        } else if a == q {
            assert(m2.st[a]@.values[i] == vs[i + (ks.len() / 2) as int]);
        } else {
            assert(m.node_ok(a));
            assert(m.inode_ok(a));
            assert(m.child_ok(a, i));
        }
    }
    assert(m2.pend_ok());
}

/// The tree after a split of the root: a fresh root `r` above the old root
/// and its new sibling, and the old root, rewritten as `nold`, no longer
/// flagged as root.
pub open spec fn root_raised(m: Model, r: u64, nold: Node, nr: Node) -> Model {
    Model {
        st: m.st.insert(m.root, nold).insert(r, nr),
        fs: m.fs.insert(r, Fence { lo: -1, hi: key_max(), level: m.height + 1 }),
        root: r,
        height: m.height + 1,
        pend: None,
        ..m
    }
}

/// What raising a new root requires.
pub open spec fn root_raise_pre(m: Model, r: u64, nold: Node, nr: Node) -> bool {
    let old = m.st[m.root];
    &&& m.wf()
    &&& m.pend is Some
    &&& m.pend_left() == m.root
    &&& !m.st.contains_key(r)
    &&& nold.is_leaf_node() == old.is_leaf_node()
    &&& !has_type(nold@.node_type, T_ROOT)
    &&& has_type(nold@.node_type, T_LEAF) == has_type(old@.node_type, T_LEAF)
    &&& has_type(nold@.node_type, T_INODE) == has_type(old@.node_type, T_INODE)
    &&& nold@.my_ptr == old@.my_ptr
    &&& nold@.keys == old@.keys
    &&& nold@.values == old@.values
    &&& nold@.link_ptr == old@.link_ptr
    &&& !nr.is_leaf_node()
    &&& nr@.node_type == T_INODE | T_ROOT
    &&& nr@.my_ptr == r
    &&& nr@.link_ptr is None
    &&& nr@.keys == seq![old@.keys.last()]
    &&& nr@.values == seq![m.root, m.pend_right()]
}

proof fn lemma_root_raise_new(m: Model, r: u64, nold: Node, nr: Node)
    requires
        root_raise_pre(m, r, nold, nr),
    ensures
        root_raised(m, r, nold, nr).node_ok(r),
{
    let m2 = root_raised(m, r, nold, nr);
    let c = m.root;
    let c2 = m.pend_right();
    assert(m.pend_ok());
    assert(m.node_ok(c));
    assert(m.link_ok(c));
    assert(m.node_ok(c2));
    lemma_type_constants();
    reveal(keys_within);
    assert(keys_within(nr@.keys, -1, key_max()));
    assert(m2.link_ok(r));
    assert(m2.child_ok(r, 0));
    assert(m2.child_ok(r, 1));
    assert forall|i: int| 0 <= i < nr@.values.len() implies #[trigger] m2.child_ok(r, i) by {
    }
    assert(m2.inode_ok(r));
}

proof fn lemma_root_raise_other(m: Model, r: u64, nold: Node, nr: Node, p: u64)
    requires
        root_raise_pre(m, r, nold, nr),
        m.st.contains_key(p),
    ensures
        root_raised(m, r, nold, nr).node_ok(p),
{
    let m2 = root_raised(m, r, nold, nr);
    assert(m.node_ok(p));
    assert(m.link_ok(p));
    assert(m2.link_ok(p));
    let n = m.st[p]@;
    if m.fs[p].level == 0 {
        assert(m.leaf_ok(p));
        assert(m2.leaf_ok(p));
    } else {
        assert(m.inode_ok(p));
        assert forall|i: int| 0 <= i < n.values.len() implies #[trigger] m2.child_ok(p, i) by {
            assert(m.child_ok(p, i));
            assert(n.values[i] != m.root);
        }
        assert(m2.inode_ok(p));
    }
}

/// A split of the root, pending with nothing above it, raises a new root
/// over the two halves: the tree is well formed again, one level higher,
/// with the same map.
pub proof fn lemma_root_raise(m: Model, r: u64, nold: Node, nr: Node)
    requires
        root_raise_pre(m, r, nold, nr),
    ensures
        root_raised(m, r, nold, nr).wf(),
        root_raised(m, r, nold, nr).contents == m.contents,
{
    let m2 = root_raised(m, r, nold, nr);
    assert(m2.st.dom() =~= m.st.dom().insert(r));
    assert(m2.fs.dom() =~= m.fs.dom().insert(r));
    assert forall|p: u64| #[trigger] m2.st.contains_key(p) implies m2.node_ok(p) by {
        if p == r {
            lemma_root_raise_new(m, r, nold, nr);
        } else {
            lemma_root_raise_other(m, r, nold, nr, p);
        }
    }
    assert forall|k2: u64, p: u64|
        #![trigger m2.contents.contains_key(k2), m2.fs[p]]
        m2.contents.contains_key(k2) && m2.st.contains_key(p) && m2.fs[p].level == 0 && covers(
            m2.fs[p],
            k2 as int,
        ) implies m2.st[p]@.keys.contains(k2) by {
        assert(m.complete());
        assert(m.fs.contains_key(p));
        assert(m.node_ok(p));
    }
    assert(m2.complete());
    assert forall|a: u64, b: u64|
        #![trigger m2.fs[a], m2.fs[b]]
        m2.st.contains_key(a) && m2.st.contains_key(b) && a != b && m2.fs[a].level
            == m2.fs[b].level implies m2.fs[a].hi <= m2.fs[b].lo || m2.fs[b].hi <= m2.fs[a].lo by {
        assert(m.disjoint());
        if a != r {
            assert(m.node_ok(a));
        }
        if b != r {
            assert(m.node_ok(b));
        }
    }
    assert forall|p: u64|
        #[trigger] m2.st.contains_key(p) && m2.fs[p].level == m2.height implies p == m2.root
        || m2.pend == Some((m2.root, p)) by {
        if p != r {
            assert(m.node_ok(p));
        }
    }
}

/// `q` lies `n` child steps below `p`.
pub open spec fn descends(m: Model, p: u64, q: u64, n: nat) -> bool
    decreases n,
{
    if n == 0 {
        p == q
    } else {
        exists|i: int|
            0 <= i < m.st[p]@.values.len() && m.fs[p].level > 0 && descends(
                m,
                #[trigger] m.st[p]@.values[i],
                q,
                (n - 1) as nat,
            )
    }
}

/// Every node below `p` lies in the store, and its interval lies within
/// the interval of `p`.
pub proof fn lemma_descendant_fence(m: Model, p: u64, q: u64, n: nat)
    requires
        m.wf(),
        m.pend is None,
        m.st.contains_key(p),
        descends(m, p, q, n),
    ensures
        m.st.contains_key(q),
        m.fs[p].lo <= m.fs[q].lo,
        m.fs[q].hi <= m.fs[p].hi,
    decreases n,
{
    if n > 0 {
        let i = choose|i: int|
            0 <= i < m.st[p]@.values.len() && m.fs[p].level > 0 && descends(
                m,
                #[trigger] m.st[p]@.values[i],
                q,
                (n - 1) as nat,
            );
        let c = m.st[p]@.values[i];
        assert(m.node_ok(p));
        assert(m.inode_ok(p));
        assert(m.child_ok(p, i));
        lemma_descendant_fence(m, c, q, (n - 1) as nat);
        let np = m.st[p]@;
        reveal(keys_within);
        if i > 0 {
            assert(m.fs[p].lo < np.keys[i - 1]);
        }
        if i < np.keys.len() {
            assert(np.keys[i] <= m.fs[p].hi);
        }
    }
}

/// In a tree with nothing pending, every key held anywhere below the child
/// at index `i` of an interior node lies between the separators `i - 1`
/// and `i`: above the first (or the node's own lower fence) and at most the
/// second (or the node's own upper fence).
pub proof fn lemma_subtree_fences(m: Model, p: u64, i: int, q: u64, n: nat, key: u64)
    requires
        m.wf(),
        m.pend is None,
        m.st.contains_key(p),
        m.fs[p].level > 0,
        0 <= i < m.st[p]@.values.len(),
        descends(m, m.st[p]@.values[i], q, n),
        m.st[q]@.keys.contains(key),
    ensures
        child_lo(m.st[p]@, m.fs[p], i) < key <= child_hi(m.st[p]@, m.fs[p], i),
{
    let c = m.st[p]@.values[i];
    assert(m.node_ok(p));
    assert(m.inode_ok(p));
    assert(m.child_ok(p, i));
    lemma_descendant_fence(m, c, q, n);
    assert(m.node_ok(q));
    lemma_within_contains(m.st[q]@.keys, m.fs[q].lo, m.fs[q].hi, key);
}

/// Following a right link stays on the level and moves to the node whose
/// interval starts where this one ends, so the walk strictly ascends in
/// largest key; a node without a right link closes its level at the
/// largest key.
pub proof fn lemma_right_link(m: Model, p: u64)
    requires
        m.wf(),
        m.st.contains_key(p),
    ensures
        match m.st[p]@.link_ptr {
            None => m.fs[p].hi == key_max(),
            Some(q) => {
                &&& m.st.contains_key(q)
                &&& q != p
                &&& m.fs[q].level == m.fs[p].level
                &&& m.fs[q].lo == m.fs[p].hi
                &&& m.fs[p].hi < m.fs[q].hi
                &&& m.st[p]@.keys.len() > 0
                &&& m.st[p]@.keys.last() == m.fs[p].hi
                &&& forall|j: int|
                    0 <= j < m.st[q]@.keys.len() ==> m.st[p]@.keys.last() < #[trigger] m.st[q]@.keys[j]
            },
        },
{
    assert(m.node_ok(p));
    assert(m.link_ok(p));
    if let Some(q) = m.st[p]@.link_ptr {
        assert(m.node_ok(q));
        reveal(keys_within);
    }
}

/// `q` lies `n` right links after `p`.
pub open spec fn right_walk(m: Model, p: u64, q: u64, n: nat) -> bool
    decreases n,
{
    if n == 0 {
        p == q
    } else {
        match m.st[p]@.link_ptr {
            Some(x) => right_walk(m, x, q, (n - 1) as nat),
            None => false,
        }
    }
}

/// Walking right links from `p` reaches every node of its level whose
/// interval ends above where the interval of `p` starts.
pub proof fn lemma_walk_reaches(m: Model, p: u64, q: u64)
    requires
        m.wf(),
        m.st.contains_key(p),
        m.st.contains_key(q),
        m.fs[q].level == m.fs[p].level,
        m.fs[p].lo < m.fs[q].hi,
    ensures
        exists|n: nat| right_walk(m, p, q, n),
    decreases key_max() - m.fs[p].hi,
{
    assert(m.node_ok(p));
    assert(m.node_ok(q));
    assert(m.link_ok(p));
    if m.fs[q].hi <= m.fs[p].hi {
        if p != q {
            assert(m.disjoint());
            assert(m.fs.contains_key(p) && m.fs.contains_key(q));
        }
        assert(right_walk(m, p, q, 0));
    } else {
        let x = m.st[p]@.link_ptr->Some_0;
        assert(m.node_ok(x));
        lemma_walk_reaches(m, x, q);
        let n = choose|n: nat| right_walk(m, x, q, n);
        assert(right_walk(m, p, q, n + 1));
    }
}

/// Every level from the root's down to the leaves has a node whose interval
/// starts below every key.
pub proof fn lemma_leftmost(m: Model, level: nat)
    requires
        m.wf(),
        m.pend is None,
        level <= m.height,
    ensures
        exists|p: u64| m.st.contains_key(p) && m.fs[p].level == level && m.fs[p].lo == -1,
    decreases m.height - level,
{
    if level == m.height {
        assert(m.st.contains_key(m.root));
    } else {
        lemma_leftmost(m, level + 1);
        let p = choose|p: u64| m.st.contains_key(p) && m.fs[p].level == level + 1 && m.fs[p].lo == -1;
        assert(m.node_ok(p));
        assert(m.inode_ok(p));
        assert(m.link_ok(p));
        assert(m.child_ok(p, 0));
        let c = m.st[p]@.values[0];
        assert(m.st.contains_key(c) && m.fs[c].level == level && m.fs[c].lo == -1);
    }
}

/// Two nodes of one level that answer for the same key are the same node.
pub proof fn lemma_unique_cover(m: Model, p: u64, q: u64, k: int)
    requires
        m.wf(),
        m.st.contains_key(p),
        m.st.contains_key(q),
        m.fs[p].level == m.fs[q].level,
        covers(m.fs[p], k),
        covers(m.fs[q], k),
    ensures
        p == q,
{
    if p != q {
        assert(m.disjoint());
        assert(m.fs.contains_key(p) && m.fs.contains_key(q));
    }
}

/// One step of a walk to the right for `key` from a node whose interval
/// starts below `key`: where the node can contain `key` it answers for it,
/// else its right link leads to a node of the same level whose interval
/// starts below `key` and ends further right.
pub proof fn lemma_move_step(m: Model, p: u64, key: u64)
    requires
        m.wf(),
        m.st.contains_key(p),
        m.fs[p].lo < key,
        m.pend is None || m.fs[p].level > m.fs[m.pend_left()].level,
    ensures
        can_contain(m.st[p]@, key) ==> covers(m.fs[p], key as int),
        !can_contain(m.st[p]@, key) ==> match m.st[p]@.link_ptr {
            Some(x) => {
                &&& m.st.contains_key(x)
                &&& x != p
                &&& m.fs[x].level == m.fs[p].level
                &&& m.fs[x].lo < key
                &&& m.fs[p].hi < m.fs[x].hi
            },
            None => false,
        },
{
    assert(m.node_ok(p));
    assert(m.link_ok(p));
    if has_type(m.st[p]@.node_type, T_ROOT) {
        if let Some(q) = m.st[p]@.link_ptr {
            assert(m.node_ok(q));
            if m.pend is Some {
                assert(m.pend_ok());
                assert(m.node_ok(m.pend_left()));
            }
        }
    }
    if let Some(x) = m.st[p]@.link_ptr {
        assert(m.node_ok(x));
    }
}

/// A walk to the right extends by the link of its last node.
pub proof fn lemma_walk_extend(m: Model, p: u64, c: u64, x: u64, n: nat)
    requires
        right_walk(m, p, c, n),
        m.st[c]@.link_ptr == Some(x),
    ensures
        right_walk(m, p, x, n + 1),
    decreases n,
{
    if n == 0 {
        assert(right_walk(m, x, x, 0));
    } else {
        match m.st[p]@.link_ptr {
            Some(y) => {
                lemma_walk_extend(m, y, c, x, (n - 1) as nat);
            },
            None => {},
        }
    }
}

} // verus!
