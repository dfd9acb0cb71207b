//! In-place ascending sort by exchange partitioning.
//!
//! The pivot is the last element of the active range. One left-to-right scan
//! moves every element that does not exceed the pivot into a growing left
//! part, the pivot is placed right behind that part, and both parts are
//! sorted in turn. The sort is not stable.

use vstd::prelude::*;
use vstd::seq_lib::*;

verus! {

/// `s` is in non-decreasing order.
pub open spec fn sorted(s: Seq<i32>) -> bool {
    forall|i: int, j: int| 0 <= i <= j < s.len() ==> s[i] <= s[j]
}

/// `a` and `b` hold the same values, each as often as the other.
pub open spec fn permutation(a: Seq<i32>, b: Seq<i32>) -> bool {
    a.to_multiset() =~= b.to_multiset()
}

/// `s` with the entries at `i` and `j` exchanged.
spec fn exchanged(s: Seq<i32>, i: int, j: int) -> Seq<i32> {
    s.update(i, s[j]).update(j, s[i])
}

/// Exchanging two entries keeps the values and how often each occurs.
proof fn lemma_exchange_permutes(s: Seq<i32>, i: int, j: int)
    requires
        0 <= i < s.len(),
        0 <= j < s.len(),
    ensures
        permutation(exchanged(s, i, j), s),
{
    broadcast use vstd::multiset::group_multiset_axioms;

    let half = s.update(i, s[j]);
    to_multiset_update(s, i, s[j]);
    to_multiset_update(half, j, s[i]);
    s.to_multiset_ensures();
    assert(s.contains(s[i]));
    assert(s.contains(s[j]));
    assert(half[j] == s[j]);
    assert(exchanged(s, i, j).to_multiset() =~= s.to_multiset());
}

/// Every value of `a` occurs in `b` when the two are permutations of each
/// other, so a bound on the values of `b` bounds those of `a`.
proof fn lemma_permutation_keeps_upper_bound(a: Seq<i32>, b: Seq<i32>, bound: i32)
    requires
        permutation(a, b),
        forall|k: int| 0 <= k < b.len() ==> b[k] <= bound,
    ensures
        forall|k: int| 0 <= k < a.len() ==> a[k] <= bound,
{
    assert forall|k: int| 0 <= k < a.len() implies a[k] <= bound by {
        assert(a.contains(a[k]));
        to_multiset_contains(a, a[k]);
        to_multiset_contains(b, a[k]);
        let w = choose|w: int| 0 <= w < b.len() && b[w] == a[k];
        assert(b[w] <= bound);
    }
}

/// The counterpart of `lemma_permutation_keeps_upper_bound` for a strict
/// lower bound.
proof fn lemma_permutation_keeps_lower_bound(a: Seq<i32>, b: Seq<i32>, bound: i32)
    requires
        permutation(a, b),
        forall|k: int| 0 <= k < b.len() ==> b[k] > bound,
    ensures
        forall|k: int| 0 <= k < a.len() ==> a[k] > bound,
{
    assert forall|k: int| 0 <= k < a.len() implies a[k] > bound by {
        assert(a.contains(a[k]));
        to_multiset_contains(a, a[k]);
        to_multiset_contains(b, a[k]);
        let w = choose|w: int| 0 <= w < b.len() && b[w] == a[k];
        assert(b[w] > bound);
    }
}

/// A multiset of values has one sorted arrangement only: two sorted
/// sequences that are permutations of each other are equal.
pub proof fn lemma_sorted_permutation_unique(a: Seq<i32>, b: Seq<i32>)
    requires
        sorted(a),
        sorted(b),
        permutation(a, b),
    ensures
        a == b,
    decreases a.len(),
{
    to_multiset_len(a);
    to_multiset_len(b);
    if a.len() > 0 {
        // Each head occurs in the other sequence, where nothing is smaller
        // than that sequence's own head.
        assert(a.contains(a[0]));
        assert(b.contains(b[0]));
        to_multiset_contains(a, a[0]);
        to_multiset_contains(b, a[0]);
        to_multiset_contains(a, b[0]);
        to_multiset_contains(b, b[0]);
        let in_b = choose|k: int| 0 <= k < b.len() && b[k] == a[0];
        let in_a = choose|k: int| 0 <= k < a.len() && a[k] == b[0];
        assert(b[0] <= b[in_b]);
        assert(a[0] <= a[in_a]);
        assert(a[0] == b[0]);

        to_multiset_remove(a, 0);
        to_multiset_remove(b, 0);
        assert(a.remove(0) =~= a.drop_first());
        assert(b.remove(0) =~= b.drop_first());
        lemma_sorted_permutation_unique(a.drop_first(), b.drop_first());
        assert(a =~= seq![a[0]] + a.drop_first());
        assert(b =~= seq![b[0]] + b.drop_first());
    } else {
        assert(a =~= b);
    }
}

/// Sorting the two sides of a partitioned sequence sorts the whole: with
/// `low` holding nothing above `pivot` and `high` nothing at or below it,
/// any sorted arrangements of the two, joined around the pivot, are a sorted
/// arrangement of `low + [pivot] + high`.
proof fn lemma_join_sorted_parts(
    low: Seq<i32>,
    pivot: i32,
    high: Seq<i32>,
    low_sorted: Seq<i32>,
    high_sorted: Seq<i32>,
)
    requires
        forall|k: int| 0 <= k < low.len() ==> low[k] <= pivot,
        forall|k: int| 0 <= k < high.len() ==> high[k] > pivot,
        sorted(low_sorted),
        sorted(high_sorted),
        permutation(low_sorted, low),
        permutation(high_sorted, high),
    ensures
        sorted(low_sorted + (seq![pivot] + high_sorted)),
        permutation(low_sorted + (seq![pivot] + high_sorted), low + (seq![pivot] + high)),
{
    lemma_permutation_keeps_upper_bound(low_sorted, low, pivot);
    lemma_permutation_keeps_lower_bound(high_sorted, high, pivot);
    let joined = low_sorted + (seq![pivot] + high_sorted);
    assert forall|i: int, j: int| 0 <= i <= j < joined.len() implies joined[i] <= joined[j] by {
        let n = low_sorted.len() as int;
        if j < n {
            assert(joined[i] == low_sorted[i] && joined[j] == low_sorted[j]);
        } else if i > n {
            assert(joined[i] == high_sorted[i - n - 1]);
            assert(joined[j] == high_sorted[j - n - 1]);
        } else if i == n {
            assert(joined[i] == pivot);
            if j > n {
                assert(joined[j] == high_sorted[j - n - 1]);
            }
        } else {
            assert(joined[i] == low_sorted[i]);
            if j > n {
                assert(joined[j] == high_sorted[j - n - 1]);
            } else {
                assert(joined[j] == pivot);
            }
        }
    }
    lemma_multiset_commutative(low_sorted, seq![pivot] + high_sorted);
    lemma_multiset_commutative(seq![pivot], high_sorted);
    lemma_multiset_commutative(low, seq![pivot] + high);
    lemma_multiset_commutative(seq![pivot], high);
}

/// Exchanges the entries at `i` and `j`.
fn exchange(arr: &mut [i32], i: usize, j: usize)
    requires
        i < old(arr)@.len(),
        j < old(arr)@.len(),
    ensures
        final(arr)@ == exchanged(old(arr)@, i as int, j as int),
{
    let first: i32 = arr[i];
    let second: i32 = arr[j];
    arr[i] = second;
    arr[j] = first;
}

/// Sorts `arr` in ascending order, in place.
///
/// Afterwards the slice is non-decreasing and holds exactly the values it
/// held before, each as often as before. Equal values may change places.
pub fn quicksort(arr: &mut [i32])
    ensures
        sorted(final(arr)@),
        permutation(final(arr)@, old(arr)@),
        final(arr)@.len() == old(arr)@.len(),
    decreases old(arr)@.len(),
{
    let len: usize = arr.len();
    if len <= 1 {
        return;
    }
    let pivot: i32 = arr[len - 1];
    let mut i: usize = 0;
    let mut j: usize = 0;
    while j < len - 1
        invariant
            len == arr@.len(),
            len == old(arr)@.len(),
            i <= j <= len - 1,
            arr@[len - 1] == pivot,
            permutation(arr@, old(arr)@),
            forall|k: int| 0 <= k < i ==> arr@[k] <= pivot,
            forall|k: int| i <= k < j ==> arr@[k] > pivot,
        decreases len - 1 - j,
    {
        if arr[j] <= pivot {
            proof {
                lemma_exchange_permutes(arr@, i as int, j as int);
            }
            exchange(arr, i, j);
            i += 1;
        }
        j += 1;
    }
    proof {
        lemma_exchange_permutes(arr@, i as int, len - 1);
    }
    exchange(arr, i, len - 1);

    let ghost parted = arr@;
    let ghost low = parted.subrange(0, i as int);
    let ghost high = parted.subrange(i + 1, len as int);
    assert(parted =~= low + (seq![pivot] + high));

    let (left, rest) = arr.split_at_mut(i);
    let (middle, right) = rest.split_at_mut(1);
    assert(left@ =~= low);
    assert(middle@ =~= seq![pivot]);
    assert(right@ =~= high);
    if i > 0 {
        quicksort(left);
    }
    if i + 1 < len {
        quicksort(right);
    }
    proof {
        lemma_join_sorted_parts(low, pivot, high, final(left)@, final(right)@);
    }
}

} // verus!
