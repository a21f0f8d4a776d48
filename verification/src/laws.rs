//! What follows from the contracts of the sorts, whichever sort is used.

use vstd::prelude::*;
use crate::order::{
    is_permutation, is_sorted, lemma_empty_multiset, lemma_permutation_member,
    lemma_with_key_absent, lemma_with_key_concat, lemma_with_key_push, same_order_of_equals,
    with_key, SortKey,
};

verus! {

/// Elements are told apart by their keys alone: no two different elements
/// have the same key.
pub open spec fn key_identifies<T: SortKey>() -> bool {
    forall|x: T, y: T| #[trigger] x.key() == #[trigger] y.key() ==> x == y
}

/// Where the key identifies the element, the elements of `s` with the key
/// of `x` are as many copies of `x` as `s` holds.
proof fn lemma_with_key_counts<T: SortKey>(s: Seq<T>, x: T)
    requires
        key_identifies::<T>(),
    ensures
        with_key(s, x.key()).len() == s.to_multiset().count(x),
        forall|i: int| 0 <= i < with_key(s, x.key()).len() ==> #[trigger] with_key(s, x.key())[i] == x,
    decreases s.len(),
{
    broadcast use vstd::multiset::group_multiset_axioms;

    if s.len() == 0 {
        lemma_with_key_absent(s, x.key());
        lemma_empty_multiset::<T>();
        assert(s =~= Seq::<T>::empty());
    } else {
        let front = s.drop_last();
        assert(front.push(s.last()) =~= s);
        lemma_with_key_counts(front, x);
        lemma_with_key_push(front, s.last(), x.key());
        vstd::seq_lib::to_multiset_build(front, s.last());
    }
}

/// Where the key identifies the element, elements with equal keys cannot
/// change their order: every permutation keeps it, and so does every sort.
pub proof fn lemma_permutation_keeps_order_of_equals<T: SortKey>(output: Seq<T>, input: Seq<T>)
    requires
        key_identifies::<T>(),
        is_permutation(output, input),
    ensures
        same_order_of_equals(output, input),
{
    assert forall|k: int| #[trigger] with_key(output, k) == with_key(input, k) by {
        if exists|x: T| x.key() == k {
            let x = choose|x: T| x.key() == k;
            lemma_with_key_counts(output, x);
            lemma_with_key_counts(input, x);
            assert(with_key(output, k) =~= with_key(input, k));
        } else {
            assert forall|i: int| 0 <= i < output.len() implies (#[trigger] output[i]).key() != k by {
            }
            assert forall|i: int| 0 <= i < input.len() implies (#[trigger] input[i]).key() != k by {
            }
            lemma_with_key_absent(output, k);
            lemma_with_key_absent(input, k);
        }
    }
}

/// Two ordered sequences with the same elements agree key for key.
///
/// So sorting a sequence that is already ordered changes no key at any
/// position, and sorting a second time changes none either; where the key
/// identifies the element, the sequence itself stays as it is.
pub proof fn lemma_sorted_permutation_agrees<T: SortKey>(output: Seq<T>, input: Seq<T>)
    requires
        is_sorted(input),
        is_sorted(output),
        is_permutation(output, input),
    ensures
        output.len() == input.len(),
        forall|i: int| 0 <= i < output.len() ==> (#[trigger] output[i]).key() == input[i].key(),
        key_identifies::<T>() ==> output == input,
    decreases output.len(),
{
    broadcast use vstd::seq_lib::group_to_multiset_ensures;

    vstd::seq_lib::to_multiset_len(output);
    vstd::seq_lib::to_multiset_len(input);
    if output.len() > 0 {
        let n = output.len() as int;
        let last = output.last();
        let at = lemma_permutation_member(output, input, n - 1);
        // no key of `input` exceeds the last key of `output`
        assert forall|m: int| 0 <= m < n implies (#[trigger] input[m]).key() <= last.key() by {
            let from = lemma_permutation_member(input, output, m);
        }
        let shorter_out = output.drop_last();
        let shorter_in = input.remove(at);
        assert(shorter_out =~= output.remove(n - 1));
        vstd::seq_lib::to_multiset_remove(output, n - 1);
        vstd::seq_lib::to_multiset_remove(input, at);
        assert forall|i: int, j: int| 0 <= i <= j < shorter_in.len() implies (#[trigger] shorter_in[i]).key() <= (#[trigger] shorter_in[j]).key() by {
            let from_i = if i < at { i } else { i + 1 };
            let from_j = if j < at { j } else { j + 1 };
            assert(shorter_in[i] == input[from_i]);
            assert(shorter_in[j] == input[from_j]);
        }
        lemma_sorted_permutation_agrees(shorter_out, shorter_in);
        assert forall|i: int| 0 <= i < n implies (#[trigger] output[i]).key() == input[i].key() by {
            if i < at {
                assert(output[i] == shorter_out[i]);
                assert(input[i] == shorter_in[i]);
            } else {
                // from `at` on, every key of `input` is the greatest key
                assert(input[at].key() <= input[i].key());
                assert(input[i].key() == last.key());
                if i < n - 1 {
                    assert(output[i] == shorter_out[i]);
                    assert(shorter_in[i] == input[i + 1]);
                    assert(input[at].key() <= input[i + 1].key());
                }
            }
        }
    }
    if key_identifies::<T>() {
        assert(output =~= input);
    }
}

/// An ordered sequence that a stable sort has gone over is the same
/// sequence: sorting what is sorted moves nothing, and a second sort undoes
/// nothing of the first, whatever the elements carry besides their keys.
pub proof fn lemma_stable_sort_of_sorted<T: SortKey>(output: Seq<T>, input: Seq<T>)
    requires
        is_sorted(input),
        is_sorted(output),
        is_permutation(output, input),
        same_order_of_equals(output, input),
    ensures
        output == input,
{
    lemma_sorted_permutation_agrees(output, input);
    lemma_same_prefix(output, input, output.len() as int);
    assert(output.take(output.len() as int) =~= output);
    assert(input.take(input.len() as int) =~= input);
}

/// Two sequences that agree key for key and in the order of the elements of
/// every key agree on their first `n` elements.
proof fn lemma_same_prefix<T: SortKey>(a: Seq<T>, b: Seq<T>, n: int)
    requires
        a.len() == b.len(),
        0 <= n <= a.len(),
        forall|i: int| 0 <= i < a.len() ==> (#[trigger] a[i]).key() == b[i].key(),
        same_order_of_equals(a, b),
    ensures
        a.take(n) == b.take(n),
    decreases n,
{
    if n == 0 {
        assert(a.take(0) =~= b.take(0));
    } else {
        lemma_same_prefix(a, b, n - 1);
        let k = a[n - 1].key();
        let shared = a.take(n - 1);
        assert(a.take(n) =~= shared.push(a[n - 1]));
        assert(b.take(n) =~= shared.push(b[n - 1]));
        assert(a =~= a.take(n) + a.skip(n));
        assert(b =~= b.take(n) + b.skip(n));
        lemma_with_key_concat(a.take(n), a.skip(n), k);
        lemma_with_key_concat(b.take(n), b.skip(n), k);
        lemma_with_key_push(shared, a[n - 1], k);
        lemma_with_key_push(shared, b[n - 1], k);
        let m = with_key(shared, k).len() as int;
        assert(with_key(a, k)[m] == a[n - 1]);
        assert(with_key(b, k)[m] == b[n - 1]);
        assert(with_key(a, k) == with_key(b, k));
    }
}

} // verus!
