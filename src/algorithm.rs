//! Binary search over sorted key sequences.

use vstd::prelude::*;

verus! {

/// Every element is less than or equal to the next one.
pub open spec fn sorted(s: Seq<u64>) -> bool {
    forall|i: int, j: int| 0 <= i <= j < s.len() ==> s[i] <= s[j]
}

/// `i` is the first index whose element is at least `key`, or `|s|`.
pub open spec fn is_lower_bound(s: Seq<u64>, key: u64, i: int) -> bool {
    &&& 0 <= i <= s.len()
    &&& forall|j: int| 0 <= j < i ==> s[j] < key
    &&& forall|j: int| i <= j < s.len() ==> key <= s[j]
}

/// `i` is the first index whose element is greater than `key`, or `|s|`.
pub open spec fn is_upper_bound(s: Seq<u64>, key: u64, i: int) -> bool {
    &&& 0 <= i <= s.len()
    &&& forall|j: int| 0 <= j < i ==> s[j] <= key
    &&& forall|j: int| i <= j < s.len() ==> key < s[j]
}

/// The smallest index whose element is at least `key`, or `|s|`, on a
/// sorted sequence.
pub open spec fn lower_bound(s: Seq<u64>, key: u64) -> int {
    choose|i: int| is_lower_bound(s, key, i)
}

/// A sequence has at most one lower-bound index for a key.
pub proof fn lemma_lower_bound_unique(s: Seq<u64>, key: u64, i: int, j: int)
    requires
        is_lower_bound(s, key, i),
        is_lower_bound(s, key, j),
    ensures
        i == j,
{
    if i < j {
        assert(s[i] < key);
    } else if j < i {
        assert(s[j] < key);
    }
}

/// On a sorted sequence the lower-bound index exists, and `lower_bound`
/// names it.
pub proof fn lemma_lower_bound(s: Seq<u64>, key: u64)
    requires
        sorted(s),
    ensures
        is_lower_bound(s, key, lower_bound(s, key)),
    decreases s.len(),
{
    if s.len() == 0 {
        assert(is_lower_bound(s, key, 0));
    } else {
        let t = s.drop_last();
        assert(sorted(t));
        lemma_lower_bound(t, key);
        let i = lower_bound(t, key);
        if s.last() < key {
            assert forall|j: int| 0 <= j < s.len() implies s[j] < key by {
                assert(s[j] <= s.last());
            }
            assert(is_lower_bound(s, key, s.len() as int));
        } else {
            assert forall|j: int| i <= j < s.len() implies key <= s[j] by {
                if j < t.len() {
                    assert(t[j] == s[j]);
                }
            }
            assert forall|j: int| 0 <= j < i implies s[j] < key by {
                assert(t[j] == s[j]);
            }
            assert(is_lower_bound(s, key, i));
        }
    }
}

/// Returns the smallest index whose element is greater than or equal to
/// `key`, or the length of `vector` when there is none.
pub fn bsearch_idx(vector: &[u64], key: &u64) -> (r: usize)
    requires
        sorted(vector@),
    ensures
        is_lower_bound(vector@, *key, r as int),
        r == lower_bound(vector@, *key),
{
    let len = vector.len();
    let mut imin: usize = 0;
    let mut imax: usize = len;
    proof {
        lemma_lower_bound(vector@, *key);
    }
    if len == 0 {
        proof {
            lemma_lower_bound_unique(vector@, *key, 0, lower_bound(vector@, *key));
        }
        return 0;
    }
    while imin < imax
        invariant
            0 <= imin <= imax <= len,
            len == vector@.len(),
            sorted(vector@),
            is_lower_bound(vector@, *key, lower_bound(vector@, *key)),
            forall|j: int| 0 <= j < imin ==> vector@[j] < *key,
            forall|j: int| imax <= j < len ==> *key <= vector@[j],
        decreases imax - imin,
    {
        let imid = imin + (imax - imin) / 2;
        if *key > vector[imid] {
            imin = imid + 1;
        } else {
            imax = imid;
        }
    }
    proof {
        lemma_lower_bound_unique(vector@, *key, imin as int, lower_bound(vector@, *key));
    }
    imin
}

/// Returns the smallest index whose element is greater than `key`, or the
/// length of `vector` when there is none.
pub fn bsearch_idx_ord(vector: &[u64], key: &u64) -> (r: usize)
    requires
        sorted(vector@),
    ensures
        is_upper_bound(vector@, *key, r as int),
{
    let len = vector.len();
    let mut imin: usize = 0;
    let mut imax: usize = len;
    if len == 0 {
        return 0;
    }
    while imin < imax
        invariant
            0 <= imin <= imax <= len,
            len == vector@.len(),
            sorted(vector@),
            forall|j: int| 0 <= j < imin ==> vector@[j] <= *key,
            forall|j: int| imax <= j < len ==> *key < vector@[j],
        decreases imax - imin,
    {
        let imid = imin + (imax - imin) / 2;
        if *key >= vector[imid] {
            imin = imid + 1;
        } else {
            imax = imid;
        }
    }
    imin
}

} // verus!
