//! Choosing the first of the least among a sequence of keys.

use vstd::prelude::*;

verus! {

/// `k` is the position of the first key that no other key is below.
pub open spec fn is_first_min(keys: Seq<int>, k: int) -> bool {
    &&& 0 <= k < keys.len()
    &&& forall|j: int| 0 <= j < keys.len() ==> keys[k] <= keys[j]
    &&& forall|j: int| 0 <= j < k ==> keys[k] < keys[j]
}

/// The position of the first least key of a sequence that is not empty.
pub open spec fn first_min(keys: Seq<int>) -> int {
    choose|k: int| is_first_min(keys, k)
}

/// `k` is the position of a key that no other key is below.
pub open spec fn is_min(keys: Seq<int>, k: int) -> bool {
    &&& 0 <= k < keys.len()
    &&& forall|j: int| 0 <= j < keys.len() ==> keys[k] <= keys[j]
}

/// Only one position is the first least.
pub proof fn lemma_first_min_unique(keys: Seq<int>, k: int)
    requires
        is_first_min(keys, k),
    ensures
        first_min(keys) == k,
{
    let m = first_min(keys);
    assert(is_first_min(keys, m));
    if m < k {
        assert(keys[k] < keys[m]);
    }
    if k < m {
        assert(keys[m] < keys[k]);
    }
}

/// A sequence that is not empty has a first least key.
pub proof fn lemma_first_min_exists(keys: Seq<int>)
    requires
        keys.len() > 0,
    ensures
        is_first_min(keys, first_min(keys)),
    decreases keys.len(),
{
    if keys.len() == 1 {
        assert(is_first_min(keys, 0));
    } else {
        let front = keys.drop_last();
        lemma_first_min_exists(front);
        let m = first_min(front);
        assert forall|j: int| 0 <= j < front.len() implies front[j] == keys[j] by {}
        assert forall|j: int| 0 <= j < keys.len() - 1 implies front[m] <= keys[j] by {
            assert(front[m] <= front[j]);
        }
        assert forall|j: int| 0 <= j < m implies front[m] < keys[j] by {
            assert(front[m] < front[j]);
        }
        if keys.last() < front[m] {
            assert(is_first_min(keys, keys.len() - 1));
        } else {
            assert(is_first_min(keys, m));
        }
    }
}

} // verus!
