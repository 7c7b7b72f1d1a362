//! Tag sets: strictly ascending sequences of tag identifiers.

use vstd::prelude::*;

verus! {

/// A tag sequence is a tag set when it is strictly ascending, which also
/// means that no tag occurs twice.
pub open spec fn is_tag_set(tags: Seq<u32>) -> bool {
    forall|i: int, j: int| 0 <= i < j < tags.len() ==> tags[i] < tags[j]
}

/// Tells whether `tags` is strictly ascending.
pub fn is_strictly_ascending(tags: &[u32]) -> (ok: bool)
    ensures
        ok == is_tag_set(tags@),
{
    let n = tags.len();
    if n < 2 {
        return true;
    }
    let mut i: usize = 1;
    while i < n
        invariant
            1 <= i <= n,
            n == tags@.len(),
            forall|a: int, b: int| 0 <= a < b < i ==> tags@[a] < tags@[b],
        decreases n - i,
    {
        if tags[i - 1] >= tags[i] {
            return false;
        }
        i += 1;
    }
    true
}

/// A value is among the first `n` items exactly when one of them equals it.
pub proof fn lemma_prefix_membership(s: Seq<u32>, n: int, x: u32)
    requires
        0 <= n <= s.len(),
    ensures
        s.take(n).to_set().contains(x) <==> exists|k: int| 0 <= k < n && s[k] == x,
{
    if s.take(n).to_set().contains(x) {
        let k = choose|k: int| 0 <= k < s.take(n).len() && s.take(n)[k] == x;
        assert(0 <= k < n && s[k] == x);
    }
    if exists|k: int| 0 <= k < n && s[k] == x {
        let k = choose|k: int| 0 <= k < n && s[k] == x;
        assert(s.take(n)[k] == x);
        assert(s.take(n).contains(x));
    }
}

/// Taking one more item adds that item to the set of the prefix.
pub proof fn lemma_prefix_extend(s: Seq<u32>, n: int)
    requires
        0 <= n < s.len(),
    ensures
        s.take(n + 1).to_set() == s.take(n).to_set().insert(s[n]),
{
    assert forall|x: u32|
        s.take(n + 1).to_set().contains(x) <==> s.take(n).to_set().insert(s[n]).contains(
            x,
        ) by {
        lemma_prefix_membership(s, n, x);
        lemma_prefix_membership(s, n + 1, x);
        if s.take(n).to_set().insert(s[n]).contains(x) {
            if x == s[n] {
                assert(0 <= n < n + 1 && s[n] == x);
            } else {
                let k = choose|k: int| 0 <= k < n && s[k] == x;
                assert(0 <= k < n + 1 && s[k] == x);
            }
        }
    }
    assert(s.take(n + 1).to_set() =~= s.take(n).to_set().insert(s[n]));
}

/// A tag set holds at most as many tags as there are tag identifiers.
pub proof fn lemma_tag_set_len(tags: Seq<u32>)
    requires
        is_tag_set(tags),
    ensures
        tags.len() <= 0x1_0000_0000,
{
    if tags.len() > 0 {
        lemma_tag_at_least_index(tags, tags.len() - 1);
    }
}

proof fn lemma_tag_at_least_index(tags: Seq<u32>, i: int)
    requires
        is_tag_set(tags),
        0 <= i < tags.len(),
    ensures
        tags[i] >= i,
    decreases i,
{
    if i > 0 {
        lemma_tag_at_least_index(tags, i - 1);
    }
}

/// `merged` is the tag set that holds exactly the tags of `a` and of `b`.
pub open spec fn is_merge_of(merged: Seq<u32>, a: Seq<u32>, b: Seq<u32>) -> bool {
    &&& is_tag_set(merged)
    &&& merged.to_set() == a.to_set().union(b.to_set())
}

/// The tags of `a` and of `b`, each once, in ascending order.
pub open spec fn merged_tags(a: Seq<u32>, b: Seq<u32>) -> Seq<u32> {
    choose|merged: Seq<u32>| is_merge_of(merged, a, b)
}

/// Two tag sets that hold the same tags are the same sequence.
pub proof fn lemma_tag_set_unique(x: Seq<u32>, y: Seq<u32>)
    requires
        is_tag_set(x),
        is_tag_set(y),
        x.to_set() == y.to_set(),
    ensures
        x == y,
    decreases x.len(),
{
    x.unique_seq_to_set();
    y.unique_seq_to_set();
    if x.len() > 0 {
        let n = x.len() as int;
        assert(x.to_set().contains(x[n - 1]));
        assert(y.to_set().contains(y[n - 1]));
        let q = choose|q: int| 0 <= q < n && y[q] == x[n - 1];
        let p = choose|p: int| 0 <= p < n && x[p] == y[n - 1];
        assert(x[n - 1] == y[n - 1]) by {
            if q < n - 1 {
                assert(y[q] < y[n - 1]);
            }
            if p < n - 1 {
                assert(x[p] < x[n - 1]);
            }
        }
        let xs = x.drop_last();
        let ys = y.drop_last();
        assert forall|t: u32| xs.to_set().contains(t) <==> ys.to_set().contains(t) by {
            if xs.to_set().contains(t) {
                let k = choose|k: int| 0 <= k < xs.len() && xs[k] == t;
                assert(x[k] < x[n - 1]);
                assert(x.to_set().contains(x[k]));
                let m = choose|m: int| 0 <= m < n && y[m] == t;
                assert(ys[m] == t);
            }
            if ys.to_set().contains(t) {
                let k = choose|k: int| 0 <= k < ys.len() && ys[k] == t;
                assert(y[k] < y[n - 1]);
                assert(y.to_set().contains(y[k]));
                let m = choose|m: int| 0 <= m < n && x[m] == t;
                assert(xs[m] == t);
            }
        }
        assert(xs.to_set() =~= ys.to_set());
        lemma_tag_set_unique(xs, ys);
        assert(x =~= xs.push(x[n - 1]));
        assert(y =~= ys.push(y[n - 1]));
    } else {
        assert(x =~= y);
    }
}

/// `tags` with `tag` put at its place, or `tags` itself if it holds `tag`.
spec fn with_tag(tags: Seq<u32>, tag: u32) -> Seq<u32>
    decreases tags.len(),
{
    if tags.len() == 0 || tags.last() < tag {
        tags.push(tag)
    } else if tags.last() == tag {
        tags
    } else {
        with_tag(tags.drop_last(), tag).push(tags.last())
    }
}

/// Putting a tag into a tag set gives the tag set with that tag added.
proof fn lemma_with_tag(tags: Seq<u32>, tag: u32)
    requires
        is_tag_set(tags),
    ensures
        is_tag_set(with_tag(tags, tag)),
        with_tag(tags, tag).to_set() == tags.to_set().insert(tag),
        with_tag(tags, tag).len() > 0,
        with_tag(tags, tag).last() == if tags.len() == 0 || tags.last() < tag {
            tag
        } else {
            tags.last()
        },
    decreases tags.len(),
{
    let placed = with_tag(tags, tag);
    if tags.len() == 0 || tags.last() < tag {
        tags.lemma_push_to_set_commute(tag);
        assert forall|i: int, j: int| 0 <= i < j < placed.len() implies placed[i] < placed[j] by {
            if j == tags.len() {
                assert(tags[i] <= tags.last());
            }
        }
    } else if tags.last() == tag {
        assert(tags.contains(tag));
        assert(tags.to_set().insert(tag) =~= tags.to_set());
    } else {
        let front = tags.drop_last();
        let inner = with_tag(front, tag);
        lemma_with_tag(front, tag);
        inner.lemma_push_to_set_commute(tags.last());
        front.lemma_push_to_set_commute(tags.last());
        assert(front.push(tags.last()) =~= tags);
        assert(placed.to_set() =~= tags.to_set().insert(tag));
        assert forall|i: int, j: int| 0 <= i < j < placed.len() implies placed[i] < placed[j] by {
            if j == inner.len() {
                assert(inner[i] <= inner.last());
                if front.len() > 0 {
                    assert(front.last() == tags[tags.len() - 2]);
                }
            } else {
                assert(placed[i] == inner[i] && placed[j] == inner[j]);
            }
        }
    }
}

/// Every finite set of tags is the set of some tag set.
pub proof fn lemma_tag_set_exists(tags: Set<u32>)
    requires
        tags.finite(),
    ensures
        exists|listed: Seq<u32>| is_tag_set(listed) && listed.to_set() == tags,
    decreases tags.len(),
{
    if tags.len() == 0 {
        let listed = Seq::<u32>::empty();
        assert(listed.to_set() =~= tags);
        assert(is_tag_set(listed) && listed.to_set() == tags);
    } else {
        let tag = tags.choose();
        lemma_tag_set_exists(tags.remove(tag));
        let rest = choose|listed: Seq<u32>|
            is_tag_set(listed) && listed.to_set() == tags.remove(tag);
        lemma_with_tag(rest, tag);
        let listed = with_tag(rest, tag);
        assert(tags.remove(tag).insert(tag) =~= tags);
        assert(is_tag_set(listed) && listed.to_set() == tags);
    }
}

/// The merge of two sequences is a tag set, and it holds the tags of both
/// and no others.
pub proof fn lemma_merged_tags(a: Seq<u32>, b: Seq<u32>)
    ensures
        is_merge_of(merged_tags(a, b), a, b),
{
    vstd::seq_lib::seq_to_set_is_finite(a);
    vstd::seq_lib::seq_to_set_is_finite(b);
    vstd::set_lib::lemma_set_union_finite_iff(a.to_set(), b.to_set());
    lemma_tag_set_exists(a.to_set().union(b.to_set()));
    let listed = choose|listed: Seq<u32>|
        is_tag_set(listed) && listed.to_set() == a.to_set().union(b.to_set());
    assert(is_merge_of(listed, a, b));
}

/// Whatever tag set holds the tags of `a` and of `b` is their merge.
pub proof fn lemma_merge_unique(merged: Seq<u32>, a: Seq<u32>, b: Seq<u32>)
    requires
        is_merge_of(merged, a, b),
    ensures
        merged == merged_tags(a, b),
{
    lemma_tag_set_unique(merged, merged_tags(a, b));
}

/// Merges two tag sets into the tag set of all their tags.
pub fn merge_tags(left: &[u32], right: &[u32]) -> (merged: Vec<u32>)
    requires
        is_tag_set(left@),
        is_tag_set(right@),
    ensures
        merged@ == merged_tags(left@, right@),
        is_merge_of(merged@, left@, right@),
{
    let mut merged: Vec<u32> = Vec::new();
    let mut i: usize = 0;
    let mut j: usize = 0;
    proof {
        assert(merged@.to_set() =~= left@.take(0).to_set().union(right@.take(0).to_set()));
    }
    while i < left.len() || j < right.len()
        invariant
            i <= left@.len(),
            j <= right@.len(),
            is_tag_set(left@),
            is_tag_set(right@),
            is_tag_set(merged@),
            merged@.to_set() == left@.take(i as int).to_set().union(
                right@.take(j as int).to_set(),
            ),
            forall|k: int|
                0 <= k < merged@.len() && i < left@.len() ==> merged@[k] < left@[i as int],
            forall|k: int|
                0 <= k < merged@.len() && j < right@.len() ==> merged@[k] < right@[j as int],
        decreases left@.len() - i + right@.len() - j,
    {
        let ghost before = merged@;
        let take_left = j >= right.len() || (i < left.len() && left[i] <= right[j]);
        let take_right = i >= left.len() || (j < right.len() && right[j] <= left[i]);
        let tag = if take_left {
            left[i]
        } else {
            right[j]
        };
        merged.push(tag);
        proof {
            before.lemma_push_to_set_commute(tag);
            if take_left {
                lemma_prefix_extend(left@, i as int);
            }
            if take_right {
                lemma_prefix_extend(right@, j as int);
            }
            let li = if take_left { i + 1 } else { i as int };
            let rj = if take_right { j + 1 } else { j as int };
            assert(merged@.to_set() =~= left@.take(li).to_set().union(right@.take(rj).to_set()));
        }
        if take_left {
            i += 1;
        }
        if take_right {
            j += 1;
        }
    }
    proof {
        assert(left@.take(i as int) =~= left@);
        assert(right@.take(j as int) =~= right@);
        lemma_merge_unique(merged@, left@, right@);
    }
    merged
}

/// Puts a tag into a tag set, at its place; a tag that is there already
/// changes nothing.
pub fn insert_tag(tags: &mut Vec<u32>, tag: u32)
    requires
        is_tag_set(old(tags)@),
    ensures
        is_tag_set(final(tags)@),
        final(tags)@.to_set() == old(tags)@.to_set().insert(tag),
{
    let mut at = tags.len();
    while at > 0 && tags[at - 1] > tag
        invariant
            at <= tags@.len(),
            tags@ == old(tags)@,
            forall|k: int| at <= k < tags@.len() ==> tags@[k] > tag,
        decreases at,
    {
        at -= 1;
    }
    let ghost before = tags@;
    if at > 0 && tags[at - 1] == tag {
        proof {
            assert(before.contains(tag));
            assert(before.to_set().insert(tag) =~= before.to_set());
        }
        return ;
    }
    tags.insert(at, tag);
    proof {
        let after = tags@;
        before.insert_ensures(at as int, tag);
        assert forall|i: int, j: int| 0 <= i < j < after.len() implies after[i] < after[j] by {
            let from_i = if i < at { i } else { i - 1 };
            let from_j = if j < at { j } else { j - 1 };
            if i != at && j != at {
                assert(after[i] == before[from_i] && after[j] == before[from_j]);
            } else if i == at {
                assert(after[j] == before[j - 1]);
            } else {
                assert(after[i] == before[i]);
                if at > 0 {
                    assert(before[i] <= before[at - 1]);
                }
            }
        }
        assert forall|x: u32| after.to_set().contains(x) <==> before.to_set().insert(tag).contains(
            x,
        ) by {
            if after.to_set().contains(x) {
                let i = choose|i: int| 0 <= i < after.len() && after[i] == x;
                if i < at {
                    assert(before[i] == x);
                    assert(before.contains(x));
                } else if i > at {
                    assert(before[i - 1] == x);
                    assert(before.contains(x));
                }
            }
            if before.to_set().insert(tag).contains(x) {
                if x == tag {
                    assert(after[at as int] == x);
                } else {
                    let i = choose|i: int| 0 <= i < before.len() && before[i] == x;
                    if i < at {
                        assert(after[i] == x);
                    } else {
                        assert(after[i + 1] == x);
                    }
                }
                assert(after.contains(x));
            }
        }
        assert(after.to_set() =~= before.to_set().insert(tag));
    }
}

} // verus!
