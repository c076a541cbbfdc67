//! Order statistics by randomized quickselect: rearranges a list around
//! its `k`-th ranked element in expected linear time.

use vstd::prelude::*;

verus! {

use vstd::multiset::group_multiset_axioms;
use vstd::seq_lib::group_to_multiset_ensures;

/// Relies on rand::random: draws an arbitrary value of the asked type;
/// nothing can be promised about which one.
pub assume_specification<T>[ rand::random::<T> ]() -> (r: T)
    where
        rand::distributions::Standard: rand::distributions::Distribution<T>,
;

/// Given a list of N values, finds the value of rank K: the one that
/// ends up at position K when the list is ordered ascending.
pub trait KthLargest {
    /// Reorders `list` so that position `k` holds its rank-`k` value,
    /// everything before is no larger and everything after no smaller,
    /// and returns that value. The list keeps exactly its old contents.
    fn kth_largest(&self, list: &mut Vec<i64>, k: usize) -> (r: i64)
        requires
            k < old(list).len(),
        ensures
            final(list)@.len() == old(list)@.len(),
            final(list)@.to_multiset() == old(list)@.to_multiset(),
            forall|i: int| 0 <= i < k as int ==> final(list)@[i] <= final(list)@[k as int],
            forall|i: int|
                (k as int) < i < final(list)@.len() ==> final(list)@[i] >= final(list)@[k as int],
            r == final(list)@[k as int],
    ;
}

/// Randomized selection (quickselect): expected linear time.
pub struct QuickSelect;

/// Exchange the values at positions `i` and `j`.
fn swap_values(list: &mut Vec<i64>, i: usize, j: usize)
    requires
        i < old(list).len(),
        j < old(list).len(),
    ensures
        final(list)@ == old(list)@.update(i as int, old(list)@[j as int]).update(
            j as int,
            old(list)@[i as int],
        ),
        final(list)@.to_multiset() == old(list)@.to_multiset(),
{
    proof {
        lemma_swap_keeps_multiset(list@, i as int, j as int);
    }
    let a = list[i];
    let b = list[j];
    list[i] = b;
    list[j] = a;
}

/// Swapping two positions of a sequence keeps its multiset of values.
proof fn lemma_swap_keeps_multiset(s: Seq<i64>, i: int, j: int)
    requires
        0 <= i < s.len(),
        0 <= j < s.len(),
    ensures
        s.update(i, s[j]).update(j, s[i]).to_multiset() == s.to_multiset(),
{
    broadcast use group_to_multiset_ensures;
    broadcast use group_multiset_axioms;

    let s1 = s.update(i, s[j]);
    let s2 = s1.update(j, s[i]);
    if i == j {
        assert(s2 =~= s);
    } else {
        assert(s.contains(s[i]));
        assert(s1.contains(s1[j]));
        assert(s1[j] == s[j]);
        assert(s2.to_multiset() =~= s.to_multiset());
    }
}

/// Swapping two positions inside a window keeps the window's multiset
/// of values.
proof fn lemma_swap_in_window(s: Seq<i64>, i: int, j: int, lo: int, hi: int)
    requires
        0 <= lo <= i < hi <= s.len(),
        lo <= j < hi,
    ensures
        s.update(i, s[j]).update(j, s[i]).subrange(lo, hi).to_multiset() == s.subrange(
            lo,
            hi,
        ).to_multiset(),
{
    let sub = s.subrange(lo, hi);
    assert(s.update(i, s[j]).update(j, s[i]).subrange(lo, hi) =~= sub.update(
        i - lo,
        sub[j - lo],
    ).update(j - lo, sub[i - lo]));
    lemma_swap_keeps_multiset(sub, i - lo, j - lo);
}

/// Every value of a window whose multiset of values matches another
/// window's comes from somewhere in that other window.
proof fn lemma_window_value_has_source(olds: Seq<i64>, news: Seq<i64>, lo: int, hi: int, j: int)
    requires
        0 <= lo <= j < hi <= olds.len(),
        news.len() == olds.len(),
        news.subrange(lo, hi).to_multiset() == olds.subrange(lo, hi).to_multiset(),
    ensures
        exists|j2: int| lo <= j2 < hi && #[trigger] olds[j2] == news[j],
{
    broadcast use group_to_multiset_ensures;
    broadcast use group_multiset_axioms;

    let nsub = news.subrange(lo, hi);
    let osub = olds.subrange(lo, hi);
    assert(nsub[j - lo] == news[j]);
    assert(nsub.contains(news[j]));
    assert(osub.to_multiset().count(news[j]) > 0);
    assert(osub.contains(news[j]));
    let t = choose|t: int| 0 <= t < osub.len() && osub[t] == news[j];
    assert(olds[lo + t] == news[j]);
}

/// Partition `list[left..=right]` around the value at `pivot`: after the
/// call, that value sits at the returned position, strictly smaller
/// values before it, others after it. Nothing outside the range moves.
fn partition(list: &mut Vec<i64>, left: usize, right: usize, pivot: usize) -> (store: usize)
    requires
        left <= pivot <= right < old(list).len(),
    ensures
        left <= store <= right,
        final(list)@.len() == old(list)@.len(),
        final(list)@.to_multiset() == old(list)@.to_multiset(),
        forall|t: int| 0 <= t < left as int ==> final(list)@[t] == old(list)@[t],
        forall|t: int| (right as int) < t < old(list)@.len() ==> final(list)@[t] == old(list)@[t],
        forall|t: int| left as int <= t < store as int ==> final(list)@[t] < final(list)@[store as int],
        forall|t: int| (store as int) < t <= right as int ==> final(list)@[t] >= final(list)@[store as int],
        final(list)@[store as int] == old(list)@[pivot as int],
        final(list)@.subrange(left as int, right as int + 1).to_multiset() == old(list)@.subrange(
            left as int,
            right as int + 1,
        ).to_multiset(),
{
    let ghost pre0 = list@;
    swap_values(list, pivot, right);
    proof {
        lemma_swap_in_window(pre0, pivot as int, right as int, left as int, right as int + 1);
    }
    let mut store_index = left;
    let mut i = left;
    while i < right
        invariant
            left <= store_index <= i <= right < list@.len(),
            list@.len() == old(list)@.len(),
            list@.to_multiset() == old(list)@.to_multiset(),
            list@.subrange(left as int, right as int + 1).to_multiset() == old(list)@.subrange(
                left as int,
                right as int + 1,
            ).to_multiset(),
            list@[right as int] == old(list)@[pivot as int],
            forall|t: int| 0 <= t < left as int ==> list@[t] == old(list)@[t],
            forall|t: int| (right as int) < t < list@.len() ==> list@[t] == old(list)@[t],
            forall|t: int| left as int <= t < store_index as int ==> list@[t] < list@[right as int],
            forall|t: int| store_index as int <= t < i as int ==> list@[t] >= list@[right as int],
        decreases right as int - i as int,
    {
        if list[i] < list[right] {
            let ghost pre1 = list@;
            swap_values(list, store_index, i);
            proof {
                lemma_swap_in_window(
                    pre1,
                    store_index as int,
                    i as int,
                    left as int,
                    right as int + 1,
                );
            }
            store_index = store_index + 1;
        }
        i = i + 1;
    }
    let ghost pre2 = list@;
    swap_values(list, right, store_index);
    proof {
        lemma_swap_in_window(pre2, right as int, store_index as int, left as int, right as int + 1);
    }
    store_index
}

/// Quickselect within `list[left..=right]`, which must already be
/// positioned between its neighbours: everything before `left` is no
/// larger, everything after `right` no smaller, than the range.
fn kth_largest_helper(list: &mut Vec<i64>, left: usize, right: usize, k: usize) -> (r: i64)
    requires
        left <= k <= right < old(list).len(),
        forall|i: int, j: int|
            0 <= i < left as int <= j < old(list)@.len() ==> old(list)@[i] <= old(list)@[j],
        forall|i: int, j: int|
            0 <= i <= (right as int) < j < old(list)@.len() ==> old(list)@[i] <= old(list)@[j],
    ensures
        final(list)@.len() == old(list)@.len(),
        final(list)@.to_multiset() == old(list)@.to_multiset(),
        forall|i: int| 0 <= i < k as int ==> final(list)@[i] <= final(list)@[k as int],
        forall|i: int|
            (k as int) < i < final(list)@.len() ==> final(list)@[i] >= final(list)@[k as int],
        r == final(list)@[k as int],
{
    if left == right {
        return list[left];
    }
    let mut l = left;
    let mut r = right;
    loop
        invariant
            l <= k <= r < list@.len(),
            list@.len() == old(list)@.len(),
            list@.to_multiset() == old(list)@.to_multiset(),
            forall|i: int, j: int| 0 <= i < l as int <= j < list@.len() ==> list@[i] <= list@[j],
            forall|i: int, j: int| 0 <= i <= (r as int) < j < list@.len() ==> list@[i] <= list@[j],
        decreases r as int - l as int,
    {
        let pivot = if r == l {
            l
        } else {
            let draw: usize = rand::random::<usize>();
            l + draw % (r - l)
        };
        let ghost pre = list@;
        let pivot = partition(list, l, r, pivot);
        proof {
            // Partition permutes only the window, so the window stays
            // bounded by its neighbours on both sides.
            assert forall|i: int, j: int|
                0 <= i < l as int <= j < list@.len() implies list@[i] <= list@[j] by {
                if j <= r as int {
                    lemma_window_value_has_source(pre, list@, l as int, r as int + 1, j);
                    let j2 = choose|j2: int|
                        l as int <= j2 < r as int + 1 && #[trigger] pre[j2] == list@[j];
                    assert(pre[i] <= pre[j2]);
                }
            }
            assert forall|i: int, j: int|
                0 <= i <= (r as int) < j < list@.len() implies list@[i] <= list@[j] by {
                if l as int <= i {
                    lemma_window_value_has_source(pre, list@, l as int, r as int + 1, i);
                    let i2 = choose|i2: int|
                        l as int <= i2 < r as int + 1 && #[trigger] pre[i2] == list@[i];
                    assert(pre[i2] <= pre[j]);
                }
            }
        }
        if k == pivot {
            return list[k];
        } else if k < pivot {
            proof {
                assert forall|i: int, j: int|
                    0 <= i <= pivot as int - 1 < j < list@.len() implies list@[i] <= list@[j] by {
                    if l as int <= i < pivot as int && j <= r as int {
                        assert(list@[i] < list@[pivot as int]);
                    }
                }
            }
            r = pivot - 1;
        } else {
            proof {
                assert forall|i: int, j: int|
                    0 <= i < pivot as int + 1 <= j < list@.len() implies list@[i] <= list@[j] by {
                    if l as int <= i <= pivot as int && j <= r as int {
                        assert(list@[j] >= list@[pivot as int]);
                    }
                }
            }
            l = pivot + 1;
        }
    }
}

impl KthLargest for QuickSelect {
    fn kth_largest(&self, list: &mut Vec<i64>, k: usize) -> (r: i64) {
        let right = list.len() - 1;
        kth_largest_helper(list, 0, right, k)
    }
}

} // verus!
