//! Merge sort: divide, sort the halves, merge them.

use vstd::multiset::Multiset;
use vstd::prelude::*;
use crate::order::{
    is_permutation, is_sorted, is_sorted_between, lemma_empty_multiset,
    lemma_permutation_of_parts,
    lemma_swapped_neighbours_order, lemma_swapped_permutation, lemma_with_key_absent,
    lemma_with_key_concat, lemma_with_key_push, same_order_of_equals, with_key, SortKey,
};

verus! {

/// Sorts `src` in place by key.
///
/// The result is ordered, holds the elements that `src` held, and keeps
/// elements with equal keys in the order in which they came.
pub fn merge_sort<T: SortKey>(src: &mut [T])
    ensures
        final(src)@.len() == old(src)@.len(),
        is_sorted(final(src)@),
        is_permutation(final(src)@, old(src)@),
        same_order_of_equals(final(src)@, old(src)@),
    decreases old(src)@.len(), 1nat,
{
    let n = src.len();
    if n <= 1 {
    } else if n == 2 {
        if !src[0].le(&src[1]) {
            proof {
                lemma_swapped_permutation(src@, 0, 1);
                lemma_swapped_neighbours_order(src@, 0);
            }
            src.swap(0, 1);
        }
    } else {
        merge_sort_impl(src);
    }
}

/// One level of merge sort on three elements or more. The left half is the
/// larger one when the length is odd.
fn merge_sort_impl<T: SortKey>(src: &mut [T])
    requires
        old(src)@.len() >= 3,
    ensures
        final(src)@.len() == old(src)@.len(),
        is_sorted(final(src)@),
        is_permutation(final(src)@, old(src)@),
        same_order_of_equals(final(src)@, old(src)@),
    decreases old(src)@.len(), 0nat,
{
    let n = src.len();
    let q = n / 2 + n % 2;
    let (left, right) = src.split_at_mut(q);
    let ghost left0 = left@;
    let ghost right0 = right@;
    merge_sort(left);
    merge_sort(right);
    proof {
        assert(old(src)@ =~= left0 + right0);
        lemma_permutation_of_parts(left@, right@, left0, right0);
        assert forall|k: int| #[trigger] with_key(left@ + right@, k) == with_key(old(src)@, k) by {
            lemma_with_key_concat(left@, right@, k);
            lemma_with_key_concat(left0, right0, k);
        }
    }
    merge(src, q);
}

/// Merges the ordered halves `[0, mid)` and `[mid, len)` of `src` into one
/// ordered whole, through a scratch buffer of the same length. Of two equal
/// front elements the left one is taken first.
pub fn merge<T: SortKey>(src: &mut [T], mid: usize)
    requires
        mid <= old(src)@.len(),
        is_sorted_between(old(src)@, 0, mid as int),
        is_sorted_between(old(src)@, mid as int, old(src)@.len() as int),
    ensures
        final(src)@.len() == old(src)@.len(),
        is_sorted(final(src)@),
        is_permutation(final(src)@, old(src)@),
        same_order_of_equals(final(src)@, old(src)@),
{
    let n = src.len();
    let mut tmp: Vec<T> = Vec::with_capacity(n);
    let mut i: usize = 0;
    let mut j: usize = mid;
    proof {
        lemma_empty_multiset::<T>();
        assert(src@.subrange(0, 0) =~= Seq::<T>::empty());
        assert(src@.subrange(mid as int, mid as int) =~= Seq::<T>::empty());
        assert(tmp@ =~= Seq::<T>::empty());
        assert(Multiset::<T>::empty().add(Multiset::<T>::empty()) =~= Multiset::<T>::empty());
        assert forall|k: int| #[trigger] with_key(tmp@, k) == with_key(src@.subrange(0, 0), k) + with_key(src@.subrange(mid as int, mid as int), k) by {
            lemma_with_key_absent(Seq::<T>::empty(), k);
            assert(Seq::<T>::empty() + Seq::<T>::empty() =~= Seq::<T>::empty());
        }
    }
    while i < mid || j < n
        invariant
            src@ == old(src)@,
            n == src@.len(),
            i <= mid <= j <= n,
            tmp@.len() == i + (j - mid),
            is_sorted_between(src@, 0, mid as int),
            is_sorted_between(src@, mid as int, n as int),
            is_sorted(tmp@),
            forall|a: int, b: int| 0 <= a < tmp@.len() && i <= b < mid ==> (#[trigger] tmp@[a]).key() <= (#[trigger] src@[b]).key(),
            forall|a: int, b: int| 0 <= a < tmp@.len() && j <= b < n ==> (#[trigger] tmp@[a]).key() <= (#[trigger] src@[b]).key(),
            i < mid ==> forall|b: int| mid <= b < j ==> (#[trigger] src@[b]).key() < src@[i as int].key(),
            tmp@.to_multiset() == src@.subrange(0, i as int).to_multiset().add(
                src@.subrange(mid as int, j as int).to_multiset(),
            ),
            forall|k: int| #[trigger] with_key(tmp@, k) == with_key(src@.subrange(0, i as int), k) + with_key(src@.subrange(mid as int, j as int), k),
        decreases (mid - i) + (n - j),
    {
        let ghost before = tmp@;
        let take_left = if i == mid {
            false
        } else if j == n {
            true
        } else {
            src[i].le(&src[j])
        };
        if take_left {
            let x = src[i];
            tmp.push(x);
            proof {
                let taken_left = src@.subrange(0, i as int);
                let taken_right = src@.subrange(mid as int, j as int);
                assert(src@.subrange(0, i + 1) =~= taken_left.push(x));
                vstd::seq_lib::to_multiset_build(taken_left, x);
                vstd::seq_lib::to_multiset_build(before, x);
                assert(tmp@.to_multiset() =~= src@.subrange(0, i + 1).to_multiset().add(taken_right.to_multiset()));
                assert forall|k: int| #[trigger] with_key(tmp@, k) == with_key(src@.subrange(0, i + 1), k) + with_key(taken_right, k) by {
                    lemma_with_key_push(before, x, k);
                    lemma_with_key_push(taken_left, x, k);
                    if x.key() == k {
                        lemma_with_key_absent(taken_right, k);
                    }
                    assert(with_key(tmp@, k) =~= with_key(src@.subrange(0, i + 1), k) + with_key(taken_right, k));
                }
            }
            i += 1;
        } else {
            let y = src[j];
            tmp.push(y);
            proof {
                let taken_left = src@.subrange(0, i as int);
                let taken_right = src@.subrange(mid as int, j as int);
                assert(src@.subrange(mid as int, j + 1) =~= taken_right.push(y));
                vstd::seq_lib::to_multiset_build(taken_right, y);
                vstd::seq_lib::to_multiset_build(before, y);
                assert(tmp@.to_multiset() =~= taken_left.to_multiset().add(src@.subrange(mid as int, j + 1).to_multiset()));
                assert forall|k: int| #[trigger] with_key(tmp@, k) == with_key(taken_left, k) + with_key(src@.subrange(mid as int, j + 1), k) by {
                    lemma_with_key_push(before, y, k);
                    lemma_with_key_push(taken_right, y, k);
                    assert(with_key(tmp@, k) =~= with_key(taken_left, k) + with_key(src@.subrange(mid as int, j + 1), k));
                }
            }
            j += 1;
        }
    }
    proof {
        let left = src@.subrange(0, mid as int);
        let right = src@.subrange(mid as int, n as int);
        assert(src@ =~= left + right);
        vstd::seq_lib::lemma_multiset_commutative(left, right);
        assert forall|k: int| #[trigger] with_key(tmp@, k) == with_key(src@, k) by {
            lemma_with_key_concat(left, right, k);
        }
    }
    let mut k: usize = 0;
    while k < n
        invariant
            n == src@.len(),
            n == tmp@.len(),
            k <= n,
            forall|m: int| 0 <= m < k ==> src@[m] == tmp@[m],
        decreases n - k,
    {
        src[k] = tmp[k];
        k += 1;
    }
    assert(src@ =~= tmp@);
}

/// The elements of `src` in `[lo, hi)`, copied out in their order.
fn copy_of_range<T: SortKey>(src: &[T], lo: usize, hi: usize) -> (copy: Vec<T>)
    requires
        lo <= hi <= src@.len(),
    ensures
        copy@ == src@.subrange(lo as int, hi as int),
{
    let mut copy: Vec<T> = Vec::with_capacity(hi - lo);
    let mut k: usize = lo;
    while k < hi
        invariant
            lo <= k <= hi <= src@.len(),
            copy@ == src@.subrange(lo as int, k as int),
        decreases hi - k,
    {
        copy.push(src[k]);
        assert(src@.subrange(lo as int, k + 1) =~= src@.subrange(lo as int, k as int).push(src@[k as int]));
        k += 1;
    }
    copy
}

/// Merges the ordered halves `[0, mid)` and `[mid, len)` of `src` into one
/// ordered whole, through a scratch copy of each half. Of two equal front
/// elements the left one is taken first.
pub fn merge_clrs<T: SortKey>(src: &mut [T], mid: usize)
    requires
        mid <= old(src)@.len(),
        is_sorted_between(old(src)@, 0, mid as int),
        is_sorted_between(old(src)@, mid as int, old(src)@.len() as int),
    ensures
        final(src)@.len() == old(src)@.len(),
        is_sorted(final(src)@),
        is_permutation(final(src)@, old(src)@),
        same_order_of_equals(final(src)@, old(src)@),
{
    let n = src.len();
    let left = copy_of_range(src, 0, mid);
    let right = copy_of_range(src, mid, n);
    let mut i: usize = 0;
    let mut j: usize = 0;
    let mut k: usize = 0;
    proof {
        lemma_empty_multiset::<T>();
        assert(src@.subrange(0, 0) =~= Seq::<T>::empty());
        assert(left@.subrange(0, 0) =~= Seq::<T>::empty());
        assert(right@.subrange(0, 0) =~= Seq::<T>::empty());
        assert(Multiset::<T>::empty().add(Multiset::<T>::empty()) =~= Multiset::<T>::empty());
        assert forall|key: int| #[trigger] with_key(src@.subrange(0, 0), key) == with_key(left@.subrange(0, 0), key) + with_key(right@.subrange(0, 0), key) by {
            lemma_with_key_absent(Seq::<T>::empty(), key);
            assert(Seq::<T>::empty() + Seq::<T>::empty() =~= Seq::<T>::empty());
        }
    }
    while k < n
        invariant
            n == src@.len(),
            n == old(src)@.len(),
            left@ == old(src)@.subrange(0, mid as int),
            right@ == old(src)@.subrange(mid as int, n as int),
            mid <= n,
            i <= left@.len(),
            j <= right@.len(),
            k == i + j,
            is_sorted(left@),
            is_sorted(right@),
            is_sorted(src@.subrange(0, k as int)),
            forall|a: int, b: int| 0 <= a < k && i <= b < left@.len() ==> (#[trigger] src@[a]).key() <= (#[trigger] left@[b]).key(),
            forall|a: int, b: int| 0 <= a < k && j <= b < right@.len() ==> (#[trigger] src@[a]).key() <= (#[trigger] right@[b]).key(),
            i < left@.len() ==> forall|b: int| 0 <= b < j ==> (#[trigger] right@[b]).key() < left@[i as int].key(),
            src@.subrange(0, k as int).to_multiset() == left@.subrange(0, i as int).to_multiset().add(
                right@.subrange(0, j as int).to_multiset(),
            ),
            forall|key: int| #[trigger] with_key(src@.subrange(0, k as int), key) == with_key(left@.subrange(0, i as int), key) + with_key(right@.subrange(0, j as int), key),
        decreases n - k,
    {
        let ghost before = src@.subrange(0, k as int);
        let ghost taken_left = left@.subrange(0, i as int);
        let ghost taken_right = right@.subrange(0, j as int);
        let take_left = if i == left.len() {
            false
        } else if j == right.len() {
            true
        } else {
            left[i].le(&right[j])
        };
        if take_left {
            let x = left[i];
            src[k] = x;
            proof {
                assert(src@.subrange(0, k + 1) =~= before.push(x));
                assert(left@.subrange(0, i + 1) =~= taken_left.push(x));
                vstd::seq_lib::to_multiset_build(taken_left, x);
                vstd::seq_lib::to_multiset_build(before, x);
                assert(before.push(x).to_multiset() =~= taken_left.push(x).to_multiset().add(taken_right.to_multiset()));
                assert forall|key: int| #[trigger] with_key(src@.subrange(0, k + 1), key) == with_key(left@.subrange(0, i + 1), key) + with_key(taken_right, key) by {
                    lemma_with_key_push(before, x, key);
                    lemma_with_key_push(taken_left, x, key);
                    if x.key() == key {
                        lemma_with_key_absent(taken_right, key);
                    }
                    assert(with_key(before.push(x), key) =~= with_key(taken_left.push(x), key) + with_key(taken_right, key));
                }
            }
            i += 1;
        } else {
            let y = right[j];
            src[k] = y;
            proof {
                assert(src@.subrange(0, k + 1) =~= before.push(y));
                assert(right@.subrange(0, j + 1) =~= taken_right.push(y));
                vstd::seq_lib::to_multiset_build(taken_right, y);
                vstd::seq_lib::to_multiset_build(before, y);
                assert(before.push(y).to_multiset() =~= taken_left.to_multiset().add(taken_right.push(y).to_multiset()));
                assert forall|key: int| #[trigger] with_key(src@.subrange(0, k + 1), key) == with_key(taken_left, key) + with_key(right@.subrange(0, j + 1), key) by {
                    lemma_with_key_push(before, y, key);
                    lemma_with_key_push(taken_right, y, key);
                    assert(with_key(before.push(y), key) =~= with_key(taken_left, key) + with_key(taken_right.push(y), key));
                }
            }
            j += 1;
        }
        k += 1;
    }
    proof {
        assert(src@.subrange(0, n as int) =~= src@);
        assert(left@.subrange(0, i as int) =~= left@);
        assert(right@.subrange(0, j as int) =~= right@);
        assert(old(src)@ =~= left@ + right@);
        vstd::seq_lib::lemma_multiset_commutative(left@, right@);
        assert forall|key: int| #[trigger] with_key(src@, key) == with_key(old(src)@, key) by {
            lemma_with_key_concat(left@, right@, key);
        }
    }
}

} // verus!
