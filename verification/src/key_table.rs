//! The arithmetic of a table of key counts: how many elements stand below
//! a key, and the sequence that results from laying out the elements key by
//! key.

use vstd::prelude::*;
use crate::order::{
    has_key, is_permutation, is_sorted, lemma_with_key_absent, lemma_with_key_concat,
    lemma_with_key_push, same_order_of_equals, with_key, SortKey,
};

verus! {

/// The number of elements of `s` whose key is at least zero and below `k`.
pub open spec fn keys_below<T: SortKey>(s: Seq<T>, k: int) -> nat
    decreases k,
{
    if k <= 0 {
        0
    } else {
        keys_below(s, k - 1) + with_key(s, k - 1).len()
    }
}

/// The elements of `s` with keys from zero up to `k`, excluding `k`: first
/// those with key zero in the order in which they stand in `s`, then those
/// with key one, and so on.
pub open spec fn grouped_by_key<T: SortKey>(s: Seq<T>, k: int) -> Seq<T>
    decreases k,
{
    if k <= 0 {
        Seq::empty()
    } else {
        grouped_by_key(s, k - 1) + with_key(s, k - 1)
    }
}

/// Every key of `s` is at least zero and below `k`.
pub open spec fn keys_within<T: SortKey>(s: Seq<T>, k: int) -> bool {
    forall|i: int| 0 <= i < s.len() ==> 0 <= (#[trigger] s[i]).key() < k
}

/// The elements with the key `k` have the key `k`.
pub proof fn lemma_with_key_keys<T: SortKey>(s: Seq<T>, k: int)
    ensures
        forall|i: int| 0 <= i < with_key(s, k).len() ==> (#[trigger] with_key(s, k)[i]).key() == k,
{
    assert forall|i: int| 0 <= i < with_key(s, k).len() implies (#[trigger] with_key(s, k)[i]).key() == k by {
        s.lemma_filter_pred(has_key(k), i);
    }
}

/// A sequence whose elements all have the key `k` is its own selection by `k`.
pub proof fn lemma_with_key_all<T: SortKey>(s: Seq<T>, k: int)
    requires
        forall|i: int| 0 <= i < s.len() ==> (#[trigger] s[i]).key() == k,
    ensures
        with_key(s, k) == s,
    decreases s.len(),
{
    if s.len() == 0 {
        lemma_with_key_absent(s, k);
        assert(s =~= Seq::<T>::empty());
    } else {
        lemma_with_key_all(s.drop_last(), k);
        lemma_with_key_push(s.drop_last(), s.last(), k);
        assert(s.drop_last().push(s.last()) =~= s);
    }
}

/// The element at `j` is found among the elements of its key at the place
/// that the elements of that key before `j` leave free.
pub proof fn lemma_with_key_index<T: SortKey>(s: Seq<T>, j: int)
    requires
        0 <= j < s.len(),
    ensures
        with_key(s.take(j), s[j].key()).len() < with_key(s, s[j].key()).len(),
        with_key(s, s[j].key())[with_key(s.take(j), s[j].key()).len() as int] == s[j],
        with_key(s.take(j + 1), s[j].key()) == with_key(s.take(j), s[j].key()).push(s[j]),
        forall|k: int| k != s[j].key() ==> #[trigger] with_key(s.take(j + 1), k) == with_key(s.take(j), k),
{
    let k = s[j].key();
    assert(s.take(j + 1) =~= s.take(j).push(s[j]));
    assert(s =~= s.take(j + 1) + s.skip(j + 1));
    lemma_with_key_concat(s.take(j + 1), s.skip(j + 1), k);
    lemma_with_key_push(s.take(j), s[j], k);
    assert forall|k2: int| k2 != s[j].key() implies #[trigger] with_key(s.take(j + 1), k2) == with_key(s.take(j), k2) by {
        lemma_with_key_push(s.take(j), s[j], k2);
    }
}

/// The layout by key up to `k` is as long as there are keys below `k`.
pub proof fn lemma_grouped_len<T: SortKey>(s: Seq<T>, k: int)
    ensures
        grouped_by_key(s, k).len() == keys_below(s, k),
    decreases k,
{
    if k > 0 {
        lemma_grouped_len(s, k - 1);
    }
}

/// There are no more keys below `a` than below a greater `b`.
pub proof fn lemma_keys_below_monotone<T: SortKey>(s: Seq<T>, a: int, b: int)
    requires
        a <= b,
    ensures
        keys_below(s, a) <= keys_below(s, b),
    decreases b - a,
{
    if a < b {
        lemma_keys_below_monotone(s, a, b - 1);
    }
}

/// One more element is one more key below `k` if its key is there.
pub proof fn lemma_keys_below_push<T: SortKey>(s: Seq<T>, x: T, k: int)
    ensures
        keys_below(s.push(x), k) == keys_below(s, k) + if 0 <= x.key() < k {
            1nat
        } else {
            0nat
        },
    decreases k,
{
    if k > 0 {
        lemma_keys_below_push(s, x, k - 1);
        lemma_with_key_push(s, x, k - 1);
    }
}

/// Where every key is at least zero and below `k`, the keys below `k` are
/// all there are.
pub proof fn lemma_keys_below_total<T: SortKey>(s: Seq<T>, k: int)
    requires
        keys_within(s, k),
    ensures
        keys_below(s, k) == s.len(),
    decreases s.len(),
{
    if s.len() == 0 {
        lemma_keys_below_none(s, k);
    } else {
        assert(0 <= s.last().key() < k);
        lemma_keys_below_total(s.drop_last(), k);
        lemma_keys_below_push(s.drop_last(), s.last(), k);
        assert(s.drop_last().push(s.last()) =~= s);
    }
}

/// The empty sequence has no keys below anything.
proof fn lemma_keys_below_none<T: SortKey>(s: Seq<T>, k: int)
    requires
        s.len() == 0,
    ensures
        keys_below(s, k) == 0,
    decreases k,
{
    if k > 0 {
        lemma_keys_below_none(s, k - 1);
        lemma_with_key_absent(s, k - 1);
    }
}

/// The layout by key up to `bound` is ordered, and its keys lie between
/// zero and `bound`.
pub proof fn lemma_grouped_sorted<T: SortKey>(s: Seq<T>, bound: int)
    ensures
        is_sorted(grouped_by_key(s, bound)),
        keys_within(grouped_by_key(s, bound), bound),
    decreases bound,
{
    if bound > 0 {
        lemma_grouped_sorted(s, bound - 1);
        lemma_with_key_keys(s, bound - 1);
        let front = grouped_by_key(s, bound - 1);
        let block = with_key(s, bound - 1);
        let whole = grouped_by_key(s, bound);
        assert forall|i: int| 0 <= i < whole.len() implies 0 <= (#[trigger] whole[i]).key() < bound by {
            if i < front.len() {
                assert(whole[i] == front[i]);
            } else {
                assert(whole[i] == block[i - front.len()]);
            }
        }
        assert forall|i: int, j: int| 0 <= i <= j < whole.len() implies (#[trigger] whole[i]).key() <= (#[trigger] whole[j]).key() by {
            if i < front.len() {
                assert(whole[i] == front[i]);
            } else {
                assert(whole[i] == block[i - front.len()]);
            }
            if j < front.len() {
                assert(whole[j] == front[j]);
            } else {
                assert(whole[j] == block[j - front.len()]);
            }
        }
    }
}

/// The layout by key up to `bound` holds the elements of every key below
/// `bound` in the order in which they stand in `s`, and no others.
pub proof fn lemma_grouped_with_key<T: SortKey>(s: Seq<T>, bound: int, k: int)
    ensures
        with_key(grouped_by_key(s, bound), k) == if 0 <= k < bound {
            with_key(s, k)
        } else {
            Seq::<T>::empty()
        },
    decreases bound,
{
    if bound <= 0 {
        lemma_with_key_absent(Seq::<T>::empty(), k);
    } else {
        lemma_grouped_with_key(s, bound - 1, k);
        let front = grouped_by_key(s, bound - 1);
        let block = with_key(s, bound - 1);
        lemma_with_key_concat(front, block, k);
        lemma_with_key_keys(s, bound - 1);
        if k == bound - 1 {
            lemma_with_key_all(block, k);
            assert(Seq::<T>::empty() + block =~= block);
        } else {
            lemma_with_key_absent(block, k);
            assert(with_key(front, k) + Seq::<T>::empty() =~= with_key(front, k));
        }
    }
}

/// A sequence holds an element as often as its selection by that element's
/// key does.
pub proof fn lemma_count_by_key<T: SortKey>(s: Seq<T>, x: T)
    ensures
        s.to_multiset().count(x) == with_key(s, x.key()).to_multiset().count(x),
    decreases s.len(),
{
    broadcast use vstd::multiset::group_multiset_axioms;

    if s.len() == 0 {
        lemma_with_key_absent(s, x.key());
        assert(s =~= Seq::<T>::empty());
    } else {
        let front = s.drop_last();
        assert(front.push(s.last()) =~= s);
        lemma_count_by_key(front, x);
        lemma_with_key_push(front, s.last(), x.key());
        vstd::seq_lib::to_multiset_build(front, s.last());
        vstd::seq_lib::to_multiset_build(with_key(front, x.key()), s.last());
    }
}

/// Two sequences that hold the same elements of every key, in the same
/// order, hold the same elements.
pub proof fn lemma_same_order_is_permutation<T: SortKey>(a: Seq<T>, b: Seq<T>)
    requires
        same_order_of_equals(a, b),
    ensures
        is_permutation(a, b),
{
    assert forall|x: T| a.to_multiset().count(x) == b.to_multiset().count(x) by {
        lemma_count_by_key(a, x);
        lemma_count_by_key(b, x);
        assert(with_key(a, x.key()) == with_key(b, x.key()));
    }
    assert(a.to_multiset() =~= b.to_multiset());
}

/// A sequence that holds, for every key below `bound`, the elements of that
/// key behind those of the lesser keys begins with the layout by key.
pub proof fn lemma_laid_out<T: SortKey>(out: Seq<T>, s: Seq<T>, bound: int)
    requires
        keys_below(s, bound) <= out.len(),
        forall|k: int, m: int|
            0 <= k < bound && 0 <= m < with_key(s, k).len() ==> #[trigger] out[keys_below(s, k) + m]
                == with_key(s, k)[m],
    ensures
        out.take(keys_below(s, bound) as int) == grouped_by_key(s, bound),
    decreases bound,
{
    if bound <= 0 {
        assert(out.take(0) =~= Seq::<T>::empty());
    } else {
        lemma_keys_below_monotone(s, bound - 1, bound);
        lemma_laid_out(out, s, bound - 1);
        lemma_grouped_len(s, bound - 1);
        let front = keys_below(s, bound - 1) as int;
        let block = with_key(s, bound - 1);
        let laid = out.take(keys_below(s, bound) as int);
        let grouped = grouped_by_key(s, bound);
        assert(laid.len() == grouped.len());
        assert forall|p: int| 0 <= p < laid.len() implies laid[p] == grouped[p] by {
            if p < front {
                assert(out.take(front)[p] == out[p]);
            } else {
                assert(out[keys_below(s, bound - 1) + (p - front)] == block[p - front]);
            }
        }
        assert(laid =~= grouped);
    }
}

/// The layout by key of a sequence whose keys are all at least zero and
/// below `bound` is the sequence sorted: ordered, with the same elements, and
/// with the elements of every key in their old order.
pub proof fn lemma_grouped_is_stable_sort<T: SortKey>(s: Seq<T>, bound: int)
    requires
        keys_within(s, bound),
    ensures
        grouped_by_key(s, bound).len() == s.len(),
        is_sorted(grouped_by_key(s, bound)),
        is_permutation(grouped_by_key(s, bound), s),
        same_order_of_equals(grouped_by_key(s, bound), s),
{
    lemma_grouped_len(s, bound);
    lemma_keys_below_total(s, bound);
    lemma_grouped_sorted(s, bound);
    assert forall|k: int| #[trigger] with_key(grouped_by_key(s, bound), k) == with_key(s, k) by {
        lemma_grouped_with_key(s, bound, k);
        if !(0 <= k < bound) {
            lemma_with_key_absent(s, k);
        }
    }
    lemma_same_order_is_permutation(grouped_by_key(s, bound), s);
}

} // verus!
