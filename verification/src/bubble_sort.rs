//! Bubble sort, in both directions.

use vstd::prelude::*;
use crate::order::{
    is_permutation, is_sorted, lemma_swapped_neighbours_order, lemma_swapped_permutation,
    same_order_of_equals, SortKey,
};

verus! {

/// Sorts `src` in place by letting the smallest remaining element sink to
/// the left in every pass.
///
/// The result is ordered, holds the elements that `src` held, and keeps
/// elements with equal keys in the order in which they came.
pub fn bubble_sort_rl<T: SortKey>(src: &mut [T])
    ensures
        final(src)@.len() == old(src)@.len(),
        is_sorted(final(src)@),
        is_permutation(final(src)@, old(src)@),
        same_order_of_equals(final(src)@, old(src)@),
{
    let n = src.len();
    if n == 0 {
        return;
    }
    let mut i: usize = 0;
    while i + 1 < n
        invariant
            i < n,
            n == src@.len(),
            n == old(src)@.len(),
            is_permutation(src@, old(src)@),
            same_order_of_equals(src@, old(src)@),
            forall|a: int, b: int| 0 <= a <= b < n && a < i ==> (#[trigger] src@[a]).key() <= (#[trigger] src@[b]).key(),
        decreases n - i,
    {
        let mut j: usize = n - 1;
        while j > i
            invariant
                n == src@.len(),
                i <= j < n,
                is_permutation(src@, old(src)@),
                same_order_of_equals(src@, old(src)@),
                forall|a: int, b: int| 0 <= a <= b < n && a < i ==> (#[trigger] src@[a]).key() <= (#[trigger] src@[b]).key(),
                forall|b: int| j <= b < n ==> src@[j as int].key() <= (#[trigger] src@[b]).key(),
            decreases j,
        {
            if !src[j - 1].le(&src[j]) {
                proof {
                    lemma_swapped_permutation(src@, j - 1, j as int);
                    lemma_swapped_neighbours_order(src@, j - 1);
                }
                src.swap(j - 1, j);
            }
            j -= 1;
        }
        i += 1;
    }
}

/// Sorts `src` in place by letting the greatest remaining element rise to
/// the right in every pass.
///
/// The result is ordered, holds the elements that `src` held, and keeps
/// elements with equal keys in the order in which they came.
pub fn bubble_sort_lr<T: SortKey>(src: &mut [T])
    ensures
        final(src)@.len() == old(src)@.len(),
        is_sorted(final(src)@),
        is_permutation(final(src)@, old(src)@),
        same_order_of_equals(final(src)@, old(src)@),
{
    let n = src.len();
    if n == 0 {
        return;
    }
    let mut i: usize = n - 1;
    while i >= 1
        invariant
            n == src@.len(),
            n == old(src)@.len(),
            i < n,
            is_permutation(src@, old(src)@),
            same_order_of_equals(src@, old(src)@),
            forall|a: int, b: int| 0 <= a <= b < n && i < b ==> (#[trigger] src@[a]).key() <= (#[trigger] src@[b]).key(),
        decreases i,
    {
        let mut j: usize = 0;
        while j < i
            invariant
                n == src@.len(),
                j <= i < n,
                is_permutation(src@, old(src)@),
                same_order_of_equals(src@, old(src)@),
                forall|a: int, b: int| 0 <= a <= b < n && i < b ==> (#[trigger] src@[a]).key() <= (#[trigger] src@[b]).key(),
                forall|a: int| 0 <= a <= j ==> (#[trigger] src@[a]).key() <= src@[j as int].key(),
            decreases i - j,
        {
            if !src[j].le(&src[j + 1]) {
                proof {
                    lemma_swapped_permutation(src@, j as int, j + 1);
                    lemma_swapped_neighbours_order(src@, j as int);
                }
                src.swap(j, j + 1);
            }
            j += 1;
        }
        i -= 1;
    }
}

} // verus!
