//! Quick sort with a selectable partitioning scheme.

use vstd::prelude::*;
use crate::order::{
    is_permutation, is_sorted, lemma_permutation_member, lemma_permutation_of_parts,
    lemma_swapped_permutation, SortKey,
};

verus! {

/// The partitioning scheme that quick sort applies at every level.
#[derive(Clone, Copy, Debug, PartialEq, Eq, Structural)]
pub enum Partitioner {
    /// The last element is the pivot and ends at its final position.
    Lomuto,
    /// The first element's value is the pivot; two cursors close in from the ends.
    Hoare,
}

/// Lomuto's scheme on a non-empty slice: returns the index `q` at which the
/// pivot ends, with nothing greater before it and only greater keys after it.
pub fn lomuto_partitioning<T: SortKey>(src: &mut [T]) -> (q: usize)
    requires
        old(src)@.len() >= 1,
    ensures
        final(src)@.len() == old(src)@.len(),
        q < final(src)@.len(),
        is_permutation(final(src)@, old(src)@),
        final(src)@[q as int] == old(src)@.last(),
        forall|i: int| 0 <= i < q ==> (#[trigger] final(src)@[i]).key() <= final(src)@[q as int].key(),
        forall|i: int| q < i < final(src)@.len() ==> (#[trigger] final(src)@[i]).key() > final(src)@[q as int].key(),
{
    let n = src.len();
    let pivot_idx = n - 1;
    let mut boundary: usize = 0;
    let mut scan: usize = 0;
    while scan < pivot_idx
        invariant
            n == src@.len(),
            pivot_idx == n - 1,
            boundary <= scan <= pivot_idx,
            is_permutation(src@, old(src)@),
            src@[pivot_idx as int] == old(src)@.last(),
            forall|i: int| 0 <= i < boundary ==> (#[trigger] src@[i]).key() <= src@[pivot_idx as int].key(),
            forall|i: int| boundary <= i < scan ==> (#[trigger] src@[i]).key() > src@[pivot_idx as int].key(),
        decreases pivot_idx - scan,
    {
        if src[scan].le(&src[pivot_idx]) {
            proof {
                lemma_swapped_permutation(src@, boundary as int, scan as int);
            }
            src.swap(boundary, scan);
            boundary += 1;
        }
        scan += 1;
    }
    proof {
        lemma_swapped_permutation(src@, pivot_idx as int, boundary as int);
    }
    src.swap(pivot_idx, boundary);
    boundary
}

/// Hoare's scheme on a non-empty slice, with the value of the first element
/// as pivot: returns the index `q` at which the right cursor stops, with
/// nothing above the pivot up to `q` and nothing below it after `q`.
pub fn hoare_partitioning<T: SortKey>(src: &mut [T]) -> (q: usize)
    requires
        old(src)@.len() >= 1,
    ensures
        final(src)@.len() == old(src)@.len(),
        q < final(src)@.len(),
        final(src)@.len() >= 2 ==> q + 1 < final(src)@.len(),
        is_permutation(final(src)@, old(src)@),
        forall|i: int| 0 <= i <= q ==> (#[trigger] final(src)@[i]).key() <= old(src)@[0].key(),
        forall|i: int| q < i < final(src)@.len() ==> (#[trigger] final(src)@[i]).key() >= old(src)@[0].key(),
{
    let n = src.len();
    let pivot = src[0];
    let mut i: usize = 0;
    let mut j: usize = n - 1;
    let ghost mut right_stop: int = 0;
    let ghost mut left_stop: int = 0;
    loop
        invariant
            n == src@.len(),
            n == old(src)@.len(),
            n >= 1,
            pivot == old(src)@[0],
            is_permutation(src@, old(src)@),
            0 <= right_stop <= j < n,
            i <= left_stop < n,
            src@[right_stop].key() <= pivot.key(),
            src@[left_stop].key() >= pivot.key(),
            i == 0 ==> src@[0].key() == pivot.key(),
            i > 0 ==> j + 1 < n,
            forall|k: int| 0 <= k < i ==> (#[trigger] src@[k]).key() <= pivot.key(),
            forall|k: int| j < k < n ==> (#[trigger] src@[k]).key() >= pivot.key(),
        decreases j + n - i,
    {
        let ghost i0 = i;
        let ghost j0 = j;
        while !src[j].le(&pivot)
            invariant
                n == src@.len(),
                j <= j0,
                0 <= right_stop <= j < n,
                src@[right_stop].key() <= pivot.key(),
                i > 0 ==> j + 1 < n,
                forall|k: int| j < k < n ==> (#[trigger] src@[k]).key() >= pivot.key(),
            decreases j,
        {
            j -= 1;
        }
        while !pivot.le(&src[i])
            invariant
                n == src@.len(),
                i0 <= i,
                i0 == 0 ==> i == 0,
                i0 > 0 ==> j + 1 < n,
                i <= left_stop < n,
                src@[left_stop].key() >= pivot.key(),
                i == 0 ==> src@[0].key() == pivot.key(),
                forall|k: int| 0 <= k < i ==> (#[trigger] src@[k]).key() <= pivot.key(),
            decreases n - i,
        {
            i += 1;
        }
        if i < j {
            proof {
                lemma_swapped_permutation(src@, i as int, j as int);
                right_stop = i as int;
                left_stop = j as int;
            }
            src.swap(i, j);
            i += 1;
            j -= 1;
        } else {
            return j;
        }
    }
}

impl Partitioner {
    /// Rearranges a non-empty `src` around a pivot and returns where the left
    /// part ends and where the right part starts.
    ///
    /// No key of the left part `[0, end_left)` exceeds a key at or after
    /// `end_left`, and no key of the right part `[start_right, len)` is below
    /// a key before `start_right`. Lomuto's scheme leaves one element, the
    /// pivot, between the two parts and only greater keys after it; Hoare's
    /// leaves none, makes both parts non-empty when there are two elements or
    /// more, and keeps the key of the first element between the two parts.
    pub fn run<T: SortKey>(self, src: &mut [T]) -> (split: (usize, usize))
        requires
            old(src)@.len() >= 1,
        ensures
            final(src)@.len() == old(src)@.len(),
            split.0 <= split.1 <= final(src)@.len(),
            is_permutation(final(src)@, old(src)@),
            forall|a: int, b: int|
                0 <= a < split.0 && split.0 <= b < final(src)@.len() ==> (#[trigger] final(src)@[a]).key()
                    <= (#[trigger] final(src)@[b]).key(),
            forall|a: int, b: int|
                0 <= a < split.1 && split.1 <= b < final(src)@.len() ==> (#[trigger] final(src)@[a]).key()
                    <= (#[trigger] final(src)@[b]).key(),
            self == Partitioner::Lomuto ==> {
                &&& split.1 == split.0 + 1
                &&& final(src)@[split.0 as int] == old(src)@.last()
                &&& forall|b: int|
                    split.1 <= b < final(src)@.len() ==> final(src)@[split.0 as int].key() < (
                    #[trigger] final(src)@[b]).key()
            },
            self == Partitioner::Hoare ==> {
                &&& split.1 == split.0
                &&& split.0 >= 1
                &&& final(src)@.len() >= 2 ==> split.0 < final(src)@.len()
                &&& forall|a: int|
                    0 <= a < split.0 ==> (#[trigger] final(src)@[a]).key() <= old(src)@[0].key()
                &&& forall|b: int|
                    split.0 <= b < final(src)@.len() ==> old(src)@[0].key() <= (#[trigger] final(src)@[b]).key()
            },
    {
        proof {
            assert(src@.len() == src.len());
        }
        match self {
            Partitioner::Lomuto => {
                let q = lomuto_partitioning(src);
                (q, q + 1)
            },
            Partitioner::Hoare => {
                let q = hoare_partitioning(src);
                (q + 1, q + 1)
            },
        }
    }
}

/// Sorts `src` in place by key with the chosen partitioning scheme, which
/// is used at every level.
///
/// The result is ordered and holds the elements that `src` held. Elements
/// with equal keys may change their relative order. The recursion is as deep
/// as the partitions are uneven: logarithmic in the length where they are
/// balanced, linear in the worst case.
pub fn quick_sort<T: SortKey>(src: &mut [T], partitioner: Partitioner)
    ensures
        final(src)@.len() == old(src)@.len(),
        is_sorted(final(src)@),
        is_permutation(final(src)@, old(src)@),
    decreases old(src)@.len(), 1nat,
{
    let n = src.len();
    if n <= 1 {
    } else if n == 2 {
        if !src[0].le(&src[1]) {
            proof {
                lemma_swapped_permutation(src@, 0, 1);
            }
            src.swap(0, 1);
        }
    } else {
        quick_sort_impl(src, partitioner);
    }
}

/// One level of quick sort on three elements or more: partition, then sort
/// the two parts.
fn quick_sort_impl<T: SortKey>(src: &mut [T], partitioner: Partitioner)
    requires
        old(src)@.len() >= 3,
    ensures
        final(src)@.len() == old(src)@.len(),
        is_sorted(final(src)@),
        is_permutation(final(src)@, old(src)@),
    decreases old(src)@.len(), 0nat,
{
    let (end_left, start_right) = partitioner.run(src);
    let ghost parted = src@;
    let (left, rest) = src.split_at_mut(end_left);
    let (_between, right) = rest.split_at_mut(start_right - end_left);
    let ghost left0 = left@;
    let ghost middle0 = _between@;
    let ghost right0 = right@;
    quick_sort(left, partitioner);
    quick_sort(right, partitioner);
    proof {
        assert(parted =~= left0 + (middle0 + right0));
        lemma_sorted_parts(parted, left0, middle0, right0, left@, right@);
    }
}

/// Sorting the outer two of three parts that are already ordered against
/// each other sorts the whole.
proof fn lemma_sorted_parts<T: SortKey>(
    whole: Seq<T>,
    left0: Seq<T>,
    middle: Seq<T>,
    right0: Seq<T>,
    left: Seq<T>,
    right: Seq<T>,
)
    requires
        whole == left0 + (middle + right0),
        middle.len() <= 1,
        forall|a: int, b: int|
            0 <= a < left0.len() && left0.len() <= b < whole.len() ==> (#[trigger] whole[a]).key() <= (
            #[trigger] whole[b]).key(),
        forall|a: int, b: int|
            0 <= a < left0.len() + middle.len() && left0.len() + middle.len() <= b < whole.len() ==> (
            #[trigger] whole[a]).key() <= (#[trigger] whole[b]).key(),
        is_sorted(left),
        is_sorted(right),
        is_permutation(left, left0),
        is_permutation(right, right0),
    ensures
        (left + (middle + right)).len() == whole.len(),
        is_sorted(left + (middle + right)),
        is_permutation(left + (middle + right), whole),
{
    let out = left + (middle + right);
    lemma_permutation_of_parts(middle, right, middle, right0);
    lemma_permutation_of_parts(left, middle + right, left0, middle + right0);
    vstd::seq_lib::to_multiset_len(left);
    vstd::seq_lib::to_multiset_len(left0);
    vstd::seq_lib::to_multiset_len(right);
    vstd::seq_lib::to_multiset_len(right0);
    let nl = left0.len() as int;
    let nm = middle.len() as int;
    assert forall|i: int, j: int| 0 <= i <= j < out.len() implies (#[trigger] out[i]).key() <= (
    #[trigger] out[j]).key() by {
        if j < nl {
            assert(out[i] == left[i] && out[j] == left[j]);
        } else if i >= nl + nm {
            assert(out[i] == right[i - nl - nm] && out[j] == right[j - nl - nm]);
        } else {
            // where the two elements stood before the parts were sorted
            let from_i = if i < nl {
                lemma_permutation_member(left, left0, i)
            } else {
                i
            };
            let from_j = if j < nl + nm {
                j
            } else {
                nl + nm + lemma_permutation_member(right, right0, j - nl - nm)
            };
            assert(out[i] == whole[from_i]);
            assert(out[j] == whole[from_j]);
        }
    }
}

} // verus!
