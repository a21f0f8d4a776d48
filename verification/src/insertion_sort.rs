//! Insertion sort: every element in turn is moved left to its place among
//! the ordered elements before it.

use vstd::prelude::*;
use crate::order::{
    is_permutation, is_sorted, lemma_swapped_neighbours_order, lemma_swapped_permutation,
    same_order_of_equals, swapped, SortKey,
};

verus! {

/// Sorts `src` in place by exchanging every element with its left neighbour
/// for as long as that one has a greater key.
///
/// The result is ordered, holds the elements that `src` held, and keeps
/// elements with equal keys in the order in which they came.
pub fn insertion_sort<T: SortKey>(src: &mut [T])
    ensures
        final(src)@.len() == old(src)@.len(),
        is_sorted(final(src)@),
        is_permutation(final(src)@, old(src)@),
        same_order_of_equals(final(src)@, old(src)@),
{
    let n = src.len();
    let mut cur: usize = 1;
    while cur < n
        invariant
            n == src@.len(),
            n == old(src)@.len(),
            1 <= cur,
            is_permutation(src@, old(src)@),
            same_order_of_equals(src@, old(src)@),
            forall|a: int, b: int| 0 <= a <= b < cur && b < n ==> (#[trigger] src@[a]).key() <= (#[trigger] src@[b]).key(),
        decreases n - cur,
    {
        let mut i: usize = cur;
        while i > 0 && !src[i - 1].le(&src[i])
            invariant
                n == src@.len(),
                i <= cur < n,
                is_permutation(src@, old(src)@),
                same_order_of_equals(src@, old(src)@),
                forall|a: int, b: int| 0 <= a <= b <= cur && a != i && b != i ==> (#[trigger] src@[a]).key() <= (#[trigger] src@[b]).key(),
                forall|b: int| i < b <= cur ==> src@[i as int].key() <= (#[trigger] src@[b]).key(),
            decreases i,
        {
            proof {
                lemma_swapped_permutation(src@, i - 1, i as int);
                lemma_swapped_neighbours_order(src@, i - 1);
            }
            src.swap(i - 1, i);
            i -= 1;
        }
        cur += 1;
    }
}

/// Insertion sort that moves the greater elements one place to the right
/// and writes the element that is being placed only once, where it belongs.
///
/// The result is ordered, holds the elements that `src` held, and keeps
/// elements with equal keys in the order in which they came.
pub fn insertion_sort_explicit<T: SortKey>(src: &mut [T])
    ensures
        final(src)@.len() == old(src)@.len(),
        is_sorted(final(src)@),
        is_permutation(final(src)@, old(src)@),
        same_order_of_equals(final(src)@, old(src)@),
{
    let n = src.len();
    let mut i: usize = 1;
    while i < n
        invariant
            n == src@.len(),
            n == old(src)@.len(),
            1 <= i,
            is_permutation(src@, old(src)@),
            same_order_of_equals(src@, old(src)@),
            forall|a: int, b: int| 0 <= a <= b < i && b < n ==> (#[trigger] src@[a]).key() <= (#[trigger] src@[b]).key(),
        decreases n - i,
    {
        let current = src[i];
        let mut j: usize = i - 1;
        // the slice as it would be with `current` written into the free place
        let ghost mut placed = src@;
        assert(placed =~= src@.update(j + 1, current));
        while j > 0 && !src[j].le(&current)
            invariant
                n == src@.len(),
                j < i < n,
                placed == src@.update(j + 1, current),
                is_permutation(placed, old(src)@),
                same_order_of_equals(placed, old(src)@),
                forall|a: int, b: int| 0 <= a <= b <= i && a != j + 1 && b != j + 1 ==> (#[trigger] placed[a]).key() <= (#[trigger] placed[b]).key(),
                forall|b: int| j + 1 < b <= i ==> current.key() <= (#[trigger] placed[b]).key(),
            decreases j,
        {
            proof {
                lemma_swapped_permutation(placed, j as int, j + 1);
                lemma_swapped_neighbours_order(placed, j as int);
                placed = swapped(placed, j as int, j + 1);
            }
            src[j + 1] = src[j];
            j -= 1;
            assert(placed =~= src@.update(j + 1, current));
        }
        assert(placed[j as int] == src@[j as int]);
        if !src[j].le(&current) {
            proof {
                lemma_swapped_permutation(placed, j as int, j + 1);
                lemma_swapped_neighbours_order(placed, j as int);
                placed = swapped(placed, j as int, j + 1);
            }
            src[j + 1] = src[j];
            src[j] = current;
        } else {
            src[j + 1] = current;
        }
        assert(src@ =~= placed);
        i += 1;
    }
}

/// Insertion sort that keeps a copy of the element that is being placed
/// and exchanges it with its left neighbour while that one is greater,
/// stopping at the front of the slice.
///
/// The result is ordered, holds the elements that `src` held, and keeps
/// elements with equal keys in the order in which they came.
pub fn insertion_sort_alternative<T: SortKey>(src: &mut [T])
    ensures
        final(src)@.len() == old(src)@.len(),
        is_sorted(final(src)@),
        is_permutation(final(src)@, old(src)@),
        same_order_of_equals(final(src)@, old(src)@),
{
    let n = src.len();
    let mut i: usize = 1;
    while i < n
        invariant
            n == src@.len(),
            n == old(src)@.len(),
            1 <= i,
            is_permutation(src@, old(src)@),
            same_order_of_equals(src@, old(src)@),
            forall|a: int, b: int| 0 <= a <= b < i && b < n ==> (#[trigger] src@[a]).key() <= (#[trigger] src@[b]).key(),
        decreases n - i,
    {
        let current = src[i];
        let mut j: usize = i - 1;
        while !src[j].le(&current)
            invariant_except_break
                src@[j + 1] == current,
                forall|a: int, b: int| 0 <= a <= b <= i && a != j + 1 && b != j + 1 ==> (#[trigger] src@[a]).key() <= (#[trigger] src@[b]).key(),
                forall|b: int| j + 1 < b <= i ==> current.key() <= (#[trigger] src@[b]).key(),
            invariant
                n == src@.len(),
                j < i < n,
                is_permutation(src@, old(src)@),
                same_order_of_equals(src@, old(src)@),
            ensures
                forall|a: int, b: int| 0 <= a <= b <= i ==> (#[trigger] src@[a]).key() <= (#[trigger] src@[b]).key(),
            decreases j,
        {
            proof {
                lemma_swapped_permutation(src@, j as int, j + 1);
                lemma_swapped_neighbours_order(src@, j as int);
            }
            src.swap(j, j + 1);
            if j == 0 {
                break;
            }
            j -= 1;
        }
        i += 1;
    }
}

} // verus!
