//! Tag overlap between two tag sets, and the measures built on it.

use vstd::prelude::*;
use crate::tagset::{is_tag_set, lemma_prefix_extend, lemma_prefix_membership, lemma_tag_set_len};

verus! {

/// The number of tags that occur in both sequences.
pub open spec fn common_count(a: Seq<u32>, b: Seq<u32>) -> nat {
    a.to_set().intersect(b.to_set()).len()
}

/// The least of three integers.
pub open spec fn min3(x: int, y: int, z: int) -> int {
    if x <= y && x <= z {
        x
    } else if y <= z {
        y
    } else {
        z
    }
}

/// The interest of showing `b` right after `a`: the number of shared tags,
/// capped by the number of tags that only `a` has and by the number that only
/// `b` has.
pub open spec fn interest_score(a: Seq<u32>, b: Seq<u32>) -> int {
    let common = common_count(a, b) as int;
    min3(common, a.len() - common, b.len() - common)
}

/// How far the pair is from a balanced overlap: the excess of the shared
/// tags, of the tags only in `a` and of the tags only in `b` over the
/// interest score, summed.
pub open spec fn waste(a: Seq<u32>, b: Seq<u32>) -> int {
    let common = common_count(a, b) as int;
    let score = interest_score(a, b);
    (a.len() - common - score) + (b.len() - common - score) + (common - score)
}

/// The tags that occur both among the first `i` of `a` and among the first
/// `j` of `b`.
spec fn prefix_common(a: Seq<u32>, b: Seq<u32>, i: int, j: int) -> Set<u32> {
    a.take(i).to_set().intersect(b.take(j).to_set())
}

proof fn lemma_skip_left(a: Seq<u32>, b: Seq<u32>, i: int, j: int)
    requires
        0 <= i < a.len(),
        0 <= j <= b.len(),
        forall|k: int| 0 <= k < j ==> b[k] != a[i],
    ensures
        prefix_common(a, b, i + 1, j) == prefix_common(a, b, i, j),
{
    lemma_prefix_extend(a, i);
    assert forall|x: u32|
        prefix_common(a, b, i + 1, j).contains(x) <==> prefix_common(a, b, i, j).contains(
            x,
        ) by {
        lemma_prefix_membership(b, j, x);
    }
    assert(prefix_common(a, b, i + 1, j) =~= prefix_common(a, b, i, j));
}

proof fn lemma_skip_right(a: Seq<u32>, b: Seq<u32>, i: int, j: int)
    requires
        0 <= i <= a.len(),
        0 <= j < b.len(),
        forall|k: int| 0 <= k < i ==> a[k] != b[j],
    ensures
        prefix_common(a, b, i, j + 1) == prefix_common(a, b, i, j),
{
    lemma_prefix_extend(b, j);
    assert forall|x: u32|
        prefix_common(a, b, i, j + 1).contains(x) <==> prefix_common(a, b, i, j).contains(
            x,
        ) by {
        lemma_prefix_membership(a, i, x);
    }
    assert(prefix_common(a, b, i, j + 1) =~= prefix_common(a, b, i, j));
}

proof fn lemma_take_both(a: Seq<u32>, b: Seq<u32>, i: int, j: int)
    requires
        0 <= i < a.len(),
        0 <= j < b.len(),
        a[i] == b[j],
        forall|k: int| 0 <= k < i ==> a[k] != a[i],
    ensures
        prefix_common(a, b, i + 1, j + 1) == prefix_common(a, b, i, j).insert(a[i]),
        !prefix_common(a, b, i, j).contains(a[i]),
{
    lemma_prefix_extend(a, i);
    lemma_prefix_extend(b, j);
    lemma_prefix_membership(a, i, a[i]);
    assert(prefix_common(a, b, i + 1, j + 1) =~= prefix_common(a, b, i, j).insert(a[i]));
}

proof fn lemma_prefix_common_finite(a: Seq<u32>, b: Seq<u32>, i: int, j: int)
    requires
        0 <= i <= a.len(),
        0 <= j <= b.len(),
    ensures
        prefix_common(a, b, i, j).finite(),
        prefix_common(a, b, i, j).len() <= i,
        prefix_common(a, b, i, j).len() <= j,
{
    let x = a.take(i).to_set();
    let y = b.take(j).to_set();
    vstd::seq_lib::seq_to_set_is_finite(a.take(i));
    vstd::seq_lib::seq_to_set_is_finite(b.take(j));
    a.take(i).lemma_cardinality_of_set();
    b.take(j).lemma_cardinality_of_set();
    vstd::set_lib::lemma_len_intersect(x, y);
    vstd::set_lib::lemma_len_intersect(y, x);
    assert(x.intersect(y) =~= y.intersect(x));
}

/// Counts the tags that two tag sets share, in one walk over both.
pub fn calculate_common_tags(left: &[u32], right: &[u32]) -> (count: u64)
    requires
        is_tag_set(left@),
        is_tag_set(right@),
    ensures
        count == common_count(left@, right@),
{
    let mut i: usize = 0;
    let mut j: usize = 0;
    let mut count: u64 = 0;
    proof {
        lemma_prefix_common_finite(left@, right@, 0, 0);
    }
    while i < left.len() && j < right.len()
        invariant
            i <= left@.len(),
            j <= right@.len(),
            is_tag_set(left@),
            is_tag_set(right@),
            count == prefix_common(left@, right@, i as int, j as int).len(),
            forall|k: int| 0 <= k < j && i < left@.len() ==> right@[k] < left@[i as int],
            forall|k: int| 0 <= k < i && j < right@.len() ==> left@[k] < right@[j as int],
        decreases left@.len() - i + right@.len() - j,
    {
        let l = left[i];
        let r = right[j];
        proof {
            lemma_prefix_common_finite(left@, right@, i as int, j as int);
        }
        if l < r {
            proof {
                lemma_skip_left(left@, right@, i as int, j as int);
            }
            i += 1;
        } else if r < l {
            proof {
                lemma_skip_right(left@, right@, i as int, j as int);
            }
            j += 1;
        } else {
            proof {
                lemma_take_both(left@, right@, i as int, j as int);
            }
            count += 1;
            i += 1;
            j += 1;
        }
    }
    proof {
        lemma_walk_complete(left@, right@, i as int, j as int);
    }
    count
}

/// The shared tags are at most as many as either sequence is long, so the
/// three measures are never negative.
pub proof fn lemma_measures_bounded(a: Seq<u32>, b: Seq<u32>)
    ensures
        common_count(a, b) <= a.len(),
        common_count(a, b) <= b.len(),
        0 <= interest_score(a, b) <= common_count(a, b),
        0 <= waste(a, b) <= a.len() + b.len(),
{
    lemma_prefix_common_finite(a, b, a.len() as int, b.len() as int);
    assert(a.take(a.len() as int) =~= a);
    assert(b.take(b.len() as int) =~= b);
}

/// Swapping the two sequences leaves the number of shared tags unchanged.
pub proof fn lemma_common_count_symmetric(a: Seq<u32>, b: Seq<u32>)
    ensures
        common_count(a, b) == common_count(b, a),
{
    assert(a.to_set().intersect(b.to_set()) =~= b.to_set().intersect(a.to_set()));
}

/// Two sequences without a shared tag have no common tags and no interest.
pub proof fn lemma_disjoint_tags_score_zero(a: Seq<u32>, b: Seq<u32>)
    requires
        a.to_set().disjoint(b.to_set()),
    ensures
        common_count(a, b) == 0,
        interest_score(a, b) == 0,
{
    assert(a.to_set().intersect(b.to_set()) =~= Set::<u32>::empty());
    lemma_measures_bounded(a, b);
}

/// The interest between two sequences never exceeds the length of the
/// shorter one.
pub proof fn lemma_interest_score_bounded(a: Seq<u32>, b: Seq<u32>)
    ensures
        interest_score(a, b) <= a.len(),
        interest_score(a, b) <= b.len(),
{
    lemma_measures_bounded(a, b);
}

/// Computes the interest between two tag sets.
pub fn calculate_score(left: &[u32], right: &[u32]) -> (score: u64)
    requires
        is_tag_set(left@),
        is_tag_set(right@),
    ensures
        score == interest_score(left@, right@),
{
    let common = calculate_common_tags(left, right);
    proof {
        lemma_measures_bounded(left@, right@);
    }
    let left_side = left.len() as u64 - common;
    let right_side = right.len() as u64 - common;
    least_of_three(common, left_side, right_side)
}

/// Computes the waste between two tag sets.
pub fn calculate_waste(left: &[u32], right: &[u32]) -> (wasted: u64)
    requires
        is_tag_set(left@),
        is_tag_set(right@),
    ensures
        wasted == waste(left@, right@),
{
    let common = calculate_common_tags(left, right);
    proof {
        lemma_measures_bounded(left@, right@);
        lemma_tag_set_len(left@);
        lemma_tag_set_len(right@);
    }
    let left_side = left.len() as u64 - common;
    let right_side = right.len() as u64 - common;
    let score = least_of_three(common, left_side, right_side);
    (left_side - score) + (right_side - score) + (common - score)
}

fn least_of_three(x: u64, y: u64, z: u64) -> (least: u64)
    ensures
        least == min3(x as int, y as int, z as int),
{
    if x <= y && x <= z {
        x
    } else if y <= z {
        y
    } else {
        z
    }
}

proof fn lemma_walk_complete(a: Seq<u32>, b: Seq<u32>, i: int, j: int)
    requires
        is_tag_set(a),
        is_tag_set(b),
        0 <= i <= a.len(),
        0 <= j <= b.len(),
        i == a.len() || j == b.len(),
        forall|k: int| 0 <= k < j && i < a.len() ==> b[k] < a[i],
        forall|k: int| 0 <= k < i && j < b.len() ==> a[k] < b[j],
    ensures
        prefix_common(a, b, i, j) == a.to_set().intersect(b.to_set()),
{
    assert forall|x: u32|
        prefix_common(a, b, i, j).contains(x) <==> a.to_set().intersect(b.to_set()).contains(
            x,
        ) by {
        lemma_prefix_membership(a, i, x);
        lemma_prefix_membership(b, j, x);
        if a.to_set().intersect(b.to_set()).contains(x) {
            let p = choose|p: int| 0 <= p < a.len() && a[p] == x;
            let q = choose|q: int| 0 <= q < b.len() && b[q] == x;
            if p >= i {
                assert(i < a.len());
                assert(j == b.len());
                assert(b[q] < a[i]);
                assert(false);
            }
            if q >= j {
                assert(j < b.len());
                assert(a[p] < b[j]);
                assert(false);
            }
            assert(0 <= p < i && a[p] == x);
            assert(0 <= q < j && b[q] == x);
        }
    }
    assert(prefix_common(a, b, i, j) =~= a.to_set().intersect(b.to_set()));
}

} // verus!
