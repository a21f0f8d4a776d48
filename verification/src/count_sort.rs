//! Counting sort, for elements whose keys are usable as table indices.
//!
//! No two elements are compared. [`count_sort`] counts the occurrences of
//! every `i32` value between zero and the greatest one and writes the values
//! back in increasing order, each as often as it was counted.
//! [`count_sort_stable`] turns the counts into the number of elements up to
//! each key and moves every element to the place that this number assigns
//! to it, which keeps elements of equal keys in their order. A slice with a
//! key that cannot index a table is left as it is.

use vstd::prelude::*;
use crate::key_table::{
    grouped_by_key, keys_below, keys_within, lemma_grouped_is_stable_sort, lemma_keys_below_monotone,
    lemma_keys_below_total, lemma_laid_out, lemma_with_key_index,
};
use crate::laws::{key_identifies, lemma_permutation_keeps_order_of_equals};
use crate::order::{
    has_key, is_permutation, is_sorted, lemma_empty_multiset, lemma_with_key_absent,
    same_order_of_equals, with_key, SortKey, Tagged,
};

verus! {

/// What became of a slice that was handed to a counting sort.
#[derive(Clone, Copy, Debug, PartialEq, Eq, Structural)]
pub enum CountSortOutcome {
    /// The slice is sorted.
    Sorted,
    /// The slice holds a key that cannot index a table, a negative one for
    /// instance, and was not touched.
    Inapplicable,
}

/// An element whose key can be used as an index into a table of counts.
pub trait TableKey: SortKey {
    /// The key as an index, unless it is negative or too great for one.
    fn table_index(&self) -> (index: Option<usize>)
        ensures
            match index {
                Some(i) => i == self.key(),
                None => self.key() < 0 || self.key() > usize::MAX,
            },
    ;
}

impl TableKey for i32 {
    fn table_index(&self) -> (index: Option<usize>) {
        match usize::try_from(*self) {
            Ok(i) => Some(i),
            Err(_) => None,
        }
    }
}

impl TableKey for i64 {
    fn table_index(&self) -> (index: Option<usize>) {
        match usize::try_from(*self) {
            Ok(i) => Some(i),
            Err(_) => None,
        }
    }
}

impl TableKey for u32 {
    fn table_index(&self) -> (index: Option<usize>) {
        match usize::try_from(*self) {
            Ok(i) => Some(i),
            Err(_) => None,
        }
    }
}

impl TableKey for u64 {
    fn table_index(&self) -> (index: Option<usize>) {
        match usize::try_from(*self) {
            Ok(i) => Some(i),
            Err(_) => None,
        }
    }
}

impl TableKey for usize {
    fn table_index(&self) -> (index: Option<usize>) {
        Some(*self)
    }
}

impl<V: Copy> TableKey for Tagged<V> {
    fn table_index(&self) -> (index: Option<usize>) {
        match usize::try_from(self.key) {
            Ok(i) => Some(i),
            Err(_) => None,
        }
    }
}

/// `s` holds a value below zero.
pub open spec fn has_negative(s: Seq<i32>) -> bool {
    exists|i: int| 0 <= i < s.len() && #[trigger] s[i] < 0
}

/// `num::FromPrimitive::from_usize` for `i32`: the same number as an `i32`
/// where it is at most `i32::MAX`, and nothing where it is greater.
#[verifier::external_body]
fn value_of_key(key: usize) -> (value: Option<i32>)
    ensures
        value == if key <= i32::MAX {
            Some(key as i32)
        } else {
            None::<i32>
        },
{
    <i32 as num::FromPrimitive>::from_usize(key)
}

/// Sorts `src` in place unless it holds a negative value.
///
/// A slice without negative values comes back ordered and with the elements
/// it held; equal values cannot be told apart, so their order is kept as
/// well. A slice with a negative value comes back unchanged, and the outcome
/// says so.
pub fn count_sort(src: &mut [i32]) -> (outcome: CountSortOutcome)
    ensures
        final(src)@.len() == old(src)@.len(),
        outcome == CountSortOutcome::Inapplicable <==> has_negative(old(src)@),
        outcome == CountSortOutcome::Inapplicable ==> final(src)@ == old(src)@,
        outcome == CountSortOutcome::Sorted ==> {
            &&& is_sorted(final(src)@)
            &&& is_permutation(final(src)@, old(src)@)
            &&& same_order_of_equals(final(src)@, old(src)@)
        },
{
    let n = src.len();
    if n == 0 {
        return CountSortOutcome::Sorted;
    }
    let mut min_element = src[0];
    let mut max_element = src[0];
    let ghost mut min_at: int = 0;
    let mut i: usize = 1;
    while i < n
        invariant
            src@ == old(src)@,
            n == src@.len(),
            1 <= i <= n,
            0 <= min_at < i,
            src@[min_at] == min_element,
            forall|k: int| 0 <= k < i ==> min_element <= #[trigger] src@[k] <= max_element,
        decreases n - i,
    {
        if src[i] < min_element {
            min_element = src[i];
            proof {
                min_at = i as int;
            }
        }
        if src[i] > max_element {
            max_element = src[i];
        }
        i += 1;
    }
    match (usize::try_from(min_element), usize::try_from(max_element)) {
        (Ok(_), Ok(max_key)) => {
            if n > 1 {
                count_sort_impl(src, max_key);
            }
            proof {
                assert(key_identifies::<i32>());
                lemma_permutation_keeps_order_of_equals(src@, old(src)@);
            }
            CountSortOutcome::Sorted
        },
        _ => {
            assert(src@[min_at] < 0);
            CountSortOutcome::Inapplicable
        },
    }
}

/// Counting sort proper, for a slice whose values all lie between zero and
/// `max_key`. The table has `max_key + 1` entries.
pub fn count_sort_impl(src: &mut [i32], max_key: usize)
    requires
        max_key <= i32::MAX,
        forall|i: int| 0 <= i < old(src)@.len() ==> 0 <= #[trigger] old(src)@[i] <= max_key,
    ensures
        final(src)@.len() == old(src)@.len(),
        is_sorted(final(src)@),
        is_permutation(final(src)@, old(src)@),
{
    broadcast use vstd::multiset::group_multiset_axioms;

    let n = src.len();
    let ghost orig = src@;
    let ghost orig_ms = src@.to_multiset();
    let mut keys_count: Vec<usize> = vec![0usize; max_key + 1];
    proof {
        lemma_empty_multiset::<i32>();
        assert(src@.subrange(0, 0) =~= Seq::<i32>::empty());
    }
    let mut i: usize = 0;
    while i < n
        invariant
            src@ == orig,
            n == src@.len(),
            i <= n,
            max_key <= i32::MAX,
            keys_count@.len() == max_key + 1,
            forall|m: int| 0 <= m < n ==> 0 <= #[trigger] orig[m] <= max_key,
            forall|k: int| 0 <= k <= max_key ==> #[trigger] keys_count@[k] == src@.subrange(0, i as int).to_multiset().count(k as i32),
        decreases n - i,
    {
        let x = src[i];
        let ghost seen = src@.subrange(0, i as int);
        proof {
            vstd::seq_lib::to_multiset_len(seen);
            vstd::seq_lib::to_multiset_build(seen, x);
            assert(src@.subrange(0, i + 1) =~= seen.push(x));
            assert(0 <= orig[i as int] <= max_key);
        }
        match usize::try_from(x) {
            Ok(key) => {
                assert(keys_count@[key as int] == seen.to_multiset().count(key as i32));
                let count = keys_count[key];
                keys_count[key] = count + 1;
            },
            Err(_) => {},
        }
        i += 1;
    }
    assert(src@.subrange(0, n as int) =~= orig);

    let mut key: usize = 0;
    let mut idx: usize = 0;
    while key < keys_count.len()
        invariant
            n == src@.len(),
            n == orig.len(),
            orig_ms == orig.to_multiset(),
            idx <= n,
            key <= max_key + 1,
            max_key <= i32::MAX,
            keys_count@.len() == max_key + 1,
            forall|k: int| 0 <= k <= max_key ==> #[trigger] keys_count@[k] == orig_ms.count(k as i32),
            forall|v: i32| #[trigger] src@.subrange(0, idx as int).to_multiset().count(v) == if 0 <= v < key {
                orig_ms.count(v)
            } else {
                0
            },
            forall|m: int| 0 <= m < idx ==> (#[trigger] src@[m]) < key,
            is_sorted(src@.subrange(0, idx as int)),
        decreases max_key + 1 - key,
    {
        let count = keys_count[key];
        let mut written: usize = 0;
        while written < count
            invariant
                n == src@.len(),
                n == orig.len(),
                orig_ms == orig.to_multiset(),
                idx <= n,
                key <= max_key <= i32::MAX,
                written <= count,
                count == orig_ms.count(key as i32),
                forall|v: i32| #[trigger] src@.subrange(0, idx as int).to_multiset().count(v) == if 0 <= v < key {
                    orig_ms.count(v)
                } else if v == key {
                    written as nat
                } else {
                    0
                },
                forall|m: int| 0 <= m < idx ==> (#[trigger] src@[m]) <= key,
                is_sorted(src@.subrange(0, idx as int)),
            decreases count - written,
        {
            let ghost out = src@.subrange(0, idx as int);
            proof {
                let rest = orig_ms.sub(out.to_multiset());
                assert(out.to_multiset().add(rest) =~= orig_ms);
                assert(rest.count(key as i32) > 0);
                vstd::seq_lib::to_multiset_len(out);
                vstd::seq_lib::to_multiset_len(orig);
                assert(rest.len() > 0);
            }
            let value = value_of_key(key).unwrap();
            src[idx] = value;
            proof {
                assert(src@.subrange(0, idx + 1) =~= out.push(value));
                vstd::seq_lib::to_multiset_build(out, value);
            }
            idx += 1;
            written += 1;
        }
        key += 1;
    }
    proof {
        let out = src@.subrange(0, idx as int);
        assert forall|v: i32| out.to_multiset().count(v) == orig_ms.count(v) by {
            if !(0 <= v <= max_key) {
                vstd::seq_lib::to_multiset_contains(orig, v);
            }
        }
        assert(out.to_multiset() =~= orig_ms);
        vstd::seq_lib::to_multiset_len(out);
        vstd::seq_lib::to_multiset_len(orig);
        assert(src@ =~= out);
    }
}

/// Sorts `src` in place by key, keeping elements of equal keys in their
/// order, unless a key is negative or not below `usize::MAX`.
///
/// A slice whose keys can all index a table comes back ordered, with the
/// elements it held, those of every key in the order in which they came. Any
/// other slice comes back unchanged, and the outcome says so. The table has
/// one entry more than the greatest key; no table is built for fewer than
/// two elements.
pub fn count_sort_stable<T: TableKey>(src: &mut [T]) -> (outcome: CountSortOutcome)
    ensures
        final(src)@.len() == old(src)@.len(),
        outcome == CountSortOutcome::Inapplicable <==> !keys_within(old(src)@, usize::MAX as int),
        outcome == CountSortOutcome::Inapplicable ==> final(src)@ == old(src)@,
        outcome == CountSortOutcome::Sorted ==> {
            &&& is_sorted(final(src)@)
            &&& is_permutation(final(src)@, old(src)@)
            &&& same_order_of_equals(final(src)@, old(src)@)
        },
{
    let n = src.len();
    let ghost orig = src@;
    let mut max_key: usize = 0;
    let mut i: usize = 0;
    while i < n
        invariant
            src@ == orig,
            n == orig.len(),
            i <= n,
            max_key < usize::MAX,
            forall|j: int| 0 <= j < i ==> 0 <= (#[trigger] orig[j]).key() <= max_key,
        decreases n - i,
    {
        match src[i].table_index() {
            Some(k) => {
                if k == usize::MAX {
                    assert(!(0 <= orig[i as int].key() < usize::MAX));
                    return CountSortOutcome::Inapplicable;
                }
                if k > max_key {
                    max_key = k;
                }
            },
            None => {
                assert(!(0 <= orig[i as int].key() < usize::MAX));
                return CountSortOutcome::Inapplicable;
            },
        }
        i += 1;
    }
    if n <= 1 {
        return CountSortOutcome::Sorted;
    }
    let bound = max_key + 1;
    proof {
        assert(keys_within(orig, bound as int));
        lemma_grouped_is_stable_sort(orig, bound as int);
        lemma_keys_below_total(orig, bound as int);
    }

    // how often every key occurs
    let mut table: Vec<usize> = vec![0usize; bound];
    assert forall|k: int| 0 <= k < bound implies #[trigger] table@[k] == with_key(orig.take(0), k).len() by {
        lemma_with_key_absent(orig.take(0), k);
    }
    i = 0;
    while i < n
        invariant
            src@ == orig,
            n == orig.len(),
            i <= n,
            bound == max_key + 1,
            table@.len() == bound,
            keys_within(orig, bound as int),
            forall|k: int| 0 <= k < bound ==> #[trigger] table@[k] == with_key(orig.take(i as int), k).len(),
        decreases n - i,
    {
        proof {
            lemma_with_key_index(orig, i as int);
            orig.lemma_filter_len(has_key(orig[i as int].key()));
        }
        match src[i].table_index() {
            Some(k) => {
                let count = table[k];
                table[k] = count + 1;
            },
            None => {},
        }
        i += 1;
    }
    assert(orig.take(n as int) =~= orig);

    // how many elements stand at or before every key
    let mut key: usize = 1;
    assert(keys_below(orig, 1) == with_key(orig, 0).len()) by {
        assert(keys_below(orig, 0) == 0);
    }
    while key < bound
        invariant
            n == orig.len(),
            1 <= key <= bound,
            table@.len() == bound,
            keys_below(orig, bound as int) == n,
            forall|k: int| 0 <= k < key ==> #[trigger] table@[k] == keys_below(orig, k + 1),
            forall|k: int| key <= k < bound ==> #[trigger] table@[k] == with_key(orig, k).len(),
        decreases bound - key,
    {
        proof {
            lemma_keys_below_monotone(orig, key + 1, bound as int);
        }
        let before = table[key - 1];
        let count = table[key];
        table[key] = before + count;
        key += 1;
    }

    // every element to its place, the last one first
    let mut sorted: Vec<T> = vstd::slice::slice_to_vec(src);
    i = n;
    while i > 0
        invariant
            src@ == orig,
            n == orig.len(),
            i <= n,
            bound == max_key + 1,
            sorted@.len() == n,
            table@.len() == bound,
            keys_within(orig, bound as int),
            keys_below(orig, bound as int) == n,
            forall|k: int| 0 <= k < bound ==> #[trigger] table@[k] == keys_below(orig, k) + with_key(orig.take(i as int), k).len(),
            forall|k: int, m: int|
                0 <= k < bound && with_key(orig.take(i as int), k).len() <= m < with_key(orig, k).len()
                    ==> #[trigger] sorted@[keys_below(orig, k) + m] == with_key(orig, k)[m],
        decreases i,
    {
        let ghost taken_before = orig.take(i as int);
        i -= 1;
        let x = src[i];
        let ghost placed_before = sorted@;
        let ghost kx = x.key();
        let ghost c = with_key(orig.take(i as int), kx).len() as int;
        proof {
            lemma_with_key_index(orig, i as int);
            lemma_keys_below_monotone(orig, kx + 1, bound as int);
            assert(keys_below(orig, kx + 1) == keys_below(orig, kx) + with_key(orig, kx).len());
            assert(taken_before == orig.take(i + 1));
            assert(with_key(taken_before, kx).len() == c + 1);
        }
        match x.table_index() {
            Some(k) => {
                let place = table[k] - 1;
                table[k] = place;
                sorted[place] = x;
                proof {
                    assert forall|k2: int, m: int|
                        0 <= k2 < bound && with_key(orig.take(i as int), k2).len() <= m < with_key(orig, k2).len()
                        implies #[trigger] sorted@[keys_below(orig, k2) + m] == with_key(orig, k2)[m] by {
                        lemma_keys_below_monotone(orig, k2 + 1, bound as int);
                        assert(keys_below(orig, k2 + 1) == keys_below(orig, k2) + with_key(orig, k2).len());
                        if k2 == kx {
                            if m > c {
                                assert(placed_before[keys_below(orig, k2) + m] == with_key(orig, k2)[m]);
                            }
                        } else {
                            assert(with_key(orig.take(i + 1), k2) == with_key(orig.take(i as int), k2));
                            assert(placed_before[keys_below(orig, k2) + m] == with_key(orig, k2)[m]);
                            assert(keys_below(orig, k2 + 1) == keys_below(orig, k2) + with_key(orig, k2).len());
                            if k2 < kx {
                                lemma_keys_below_monotone(orig, k2 + 1, kx);
                            } else {
                                lemma_keys_below_monotone(orig, kx + 1, k2);
                            }
                        }
                    }
                }
            },
            None => {},
        }
    }
    proof {
        assert(orig.take(0) =~= Seq::<T>::empty());
        assert forall|k: int, m: int| 0 <= k < bound && 0 <= m < with_key(orig, k).len() implies #[trigger] sorted@[keys_below(orig, k) + m] == with_key(orig, k)[m] by {
            lemma_with_key_absent(orig.take(0), k);
        }
        lemma_laid_out(sorted@, orig, bound as int);
        assert(sorted@.take(n as int) =~= sorted@);
        assert(sorted@ == grouped_by_key(orig, bound as int));
    }
    let mut at: usize = 0;
    while at < n
        invariant
            n == src@.len(),
            n == sorted@.len(),
            at <= n,
            forall|m: int| 0 <= m < at ==> src@[m] == sorted@[m],
        decreases n - at,
    {
        src[at] = sorted[at];
        at += 1;
    }
    assert(src@ =~= sorted@);
    CountSortOutcome::Sorted
}

} // verus!
