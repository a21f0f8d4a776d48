//! Heap sort: the slice is arranged as a max heap, and the root is moved
//! behind the heap until the heap is used up.

use vstd::prelude::*;
use crate::order::{
    is_permutation, is_sorted, is_sorted_between, lemma_permutation_member,
    lemma_permutation_of_parts, lemma_swapped_permutation, SortKey,
};

verus! {

/// The index of the parent of node `c` in the implicit binary tree.
pub open spec fn parent(c: int) -> int {
    (c - 1) / 2
}

/// The key of node `c` does not exceed that of its parent.
pub open spec fn below_parent<T: SortKey>(s: Seq<T>, c: int) -> bool {
    s[c].key() <= s[parent(c)].key()
}

/// The key of node `c` does not exceed that of its parent's parent.
pub open spec fn below_grandparent<T: SortKey>(s: Seq<T>, c: int) -> bool {
    s[c].key() <= s[parent(parent(c))].key()
}

/// Every node of `s` whose parent stands at `start` or later has a key that
/// does not exceed its parent's. With `start` zero, `s` is a max heap.
pub open spec fn is_max_heap_from<T: SortKey>(s: Seq<T>, start: int) -> bool {
    forall|c: int| 0 < c < s.len() && parent(c) >= start ==> #[trigger] below_parent(s, c)
}

/// No key of a max heap exceeds that of its root.
pub proof fn lemma_root_is_greatest<T: SortKey>(s: Seq<T>, i: int)
    requires
        is_max_heap_from(s, 0),
        0 <= i < s.len(),
    ensures
        s[i].key() <= s[0].key(),
    decreases i,
{
    if i > 0 {
        assert(below_parent(s, i));
        lemma_root_is_greatest(s, parent(i));
    }
}

/// Sorts `src` in place by key.
///
/// The result is ordered and holds the elements that `src` held. Elements
/// with equal keys may change their relative order.
pub fn heap_sort<T: SortKey>(src: &mut [T])
    ensures
        final(src)@.len() == old(src)@.len(),
        is_sorted(final(src)@),
        is_permutation(final(src)@, old(src)@),
{
    let n = src.len();
    if n <= 1 {
    } else if n == 2 {
        if !src[0].le(&src[1]) {
            proof {
                lemma_swapped_permutation(src@, 0, 1);
            }
            src.swap(0, 1);
        }
    } else {
        heap_sort_impl(src);
    }
}

/// Heap sort proper, on two elements or more.
pub fn heap_sort_impl<T: SortKey>(src: &mut [T])
    requires
        old(src)@.len() >= 2,
    ensures
        final(src)@.len() == old(src)@.len(),
        is_sorted(final(src)@),
        is_permutation(final(src)@, old(src)@),
{
    build_max_heap(src);
    let n = src.len();
    let mut heap_size: usize = n;
    assert(src@.subrange(0, n as int) =~= src@);
    while heap_size > 1
        invariant
            n == src@.len(),
            n == old(src)@.len(),
            1 <= heap_size <= n,
            is_permutation(src@, old(src)@),
            is_max_heap_from(src@.subrange(0, heap_size as int), 0),
            is_sorted_between(src@, heap_size as int, n as int),
            forall|a: int, b: int| 0 <= a < heap_size && heap_size <= b < n ==> (#[trigger] src@[a]).key() <= (#[trigger] src@[b]).key(),
        decreases heap_size,
    {
        let node_index = heap_size - 1;
        let ghost before = src@;
        proof {
            lemma_swapped_permutation(src@, 0, node_index as int);
            assert forall|a: int| 0 <= a < heap_size implies (#[trigger] before[a]).key() <= before[0].key() by {
                lemma_root_is_greatest(before.subrange(0, heap_size as int), a);
            }
        }
        src.swap(0, node_index);
        heap_size -= 1;
        let ghost exchanged = src@;
        let (heap, _sorted) = src.split_at_mut(heap_size);
        let ghost heap0 = heap@;
        proof {
            assert forall|c: int| 0 < c < heap0.len() && parent(c) >= 1 implies #[trigger] below_parent(heap0, c) by {
                assert(below_parent(before.subrange(0, heap_size + 1), c));
            }
        }
        max_heapify(heap, 0);
        proof {
            let after = heap@ + _sorted@;
            assert(exchanged =~= heap0 + _sorted@);
            lemma_permutation_of_parts(heap@, _sorted@, heap0, _sorted@);
            assert(after.subrange(0, heap_size as int) =~= heap@);
            assert forall|a: int, b: int| 0 <= a < heap_size && heap_size <= b < n implies (#[trigger] after[a]).key() <= (#[trigger] after[b]).key() by {
                let from = lemma_permutation_member(heap@, heap0, a);
                assert(after[a] == exchanged[from]);
                assert(after[b] == exchanged[b]);
                if from == 0 {
                    assert(exchanged[from] == before[node_index as int]);
                } else {
                    assert(exchanged[from] == before[from]);
                }
            }
            assert forall|a: int, b: int| heap_size <= a <= b < n implies (#[trigger] after[a]).key() <= (#[trigger] after[b]).key() by {
                assert(after[a] == exchanged[a]);
                assert(after[b] == exchanged[b]);
            }
        }
    }
    assert forall|i: int, j: int| 0 <= i <= j < n implies (#[trigger] src@[i]).key() <= (#[trigger] src@[j]).key() by {
    }
}

/// Arranges `src`, of two elements or more, as a max heap, from the last
/// node that has a child up to the root.
pub fn build_max_heap<T: SortKey>(src: &mut [T])
    requires
        old(src)@.len() >= 2,
    ensures
        final(src)@.len() == old(src)@.len(),
        is_permutation(final(src)@, old(src)@),
        is_max_heap_from(final(src)@, 0),
{
    let last_leaf_index = src.len() - 1;
    let last_leaf_parent_index = if last_leaf_index % 2 == 0 {
        last_leaf_index / 2 - 1
    } else {
        last_leaf_index / 2
    };
    let mut node_index = last_leaf_parent_index + 1;
    while node_index > 0
        invariant
            src@.len() == old(src)@.len(),
            node_index <= last_leaf_parent_index + 1 < src@.len(),
            is_permutation(src@, old(src)@),
            is_max_heap_from(src@, node_index as int),
        decreases node_index,
    {
        node_index -= 1;
        max_heapify(src, node_index);
    }
}

/// Lets the node at `start_from` sink until neither child has a key that is
/// greater or equal, given that every later node already dominates its
/// children. Of an equal parent and child the child moves up.
pub fn max_heapify<T: SortKey>(src: &mut [T], start_from: usize)
    requires
        start_from < old(src)@.len(),
        is_max_heap_from(old(src)@, start_from + 1),
    ensures
        final(src)@.len() == old(src)@.len(),
        is_permutation(final(src)@, old(src)@),
        is_max_heap_from(final(src)@, start_from as int),
{
    let n = src.len();
    let mut parent_index = start_from;
    loop
        invariant
            n == src@.len(),
            n == old(src)@.len(),
            start_from <= parent_index < n,
            is_permutation(src@, old(src)@),
            forall|c: int| 0 < c < n && parent(c) >= start_from && parent(c) != parent_index ==> #[trigger] below_parent(src@, c),
            parent_index > start_from ==> forall|c: int| 0 < c < n && parent(c) == parent_index ==> #[trigger] below_grandparent(src@, c),
        decreases n - parent_index,
    {
        let mut largest_index = parent_index;
        if parent_index < n / 2 {
            let left_child_index = parent_index * 2 + 1;
            if src[largest_index].le(&src[left_child_index]) {
                largest_index = left_child_index;
            }
            let right_child_index = left_child_index + 1;
            if right_child_index < n && src[largest_index].le(&src[right_child_index]) {
                largest_index = right_child_index;
            }
        }
        if parent_index != largest_index {
            let ghost before = src@;
            proof {
                lemma_swapped_permutation(src@, parent_index as int, largest_index as int);
            }
            src.swap(parent_index, largest_index);
            proof {
                assert forall|c: int| 0 < c < n && parent(c) >= start_from && parent(c) != largest_index implies #[trigger] below_parent(src@, c) by {
                    if parent(c) == parent_index {
                    } else {
                        assert(below_parent(before, c));
                        if c == parent_index {
                            assert(below_grandparent(before, largest_index as int));
                        }
                    }
                }
                assert forall|c: int| 0 < c < n && parent(c) == largest_index implies #[trigger] below_grandparent(src@, c) by {
                    assert(below_parent(before, c));
                }
            }
            parent_index = largest_index;
        } else {
            proof {
                assert forall|c: int| 0 < c < n && parent(c) >= start_from implies #[trigger] below_parent(src@, c) by {
                }
            }
            return;
        }
    }
}

} // verus!
