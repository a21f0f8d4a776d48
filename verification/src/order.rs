//! The ordering abstraction shared by every algorithm of the crate, and the
//! vocabulary in which their contracts are written.

use vstd::multiset::Multiset;
use vstd::prelude::*;

verus! {

/// An element that is ordered by an integer key.
///
/// Two elements with the same key compare as equal even when they differ in
/// the rest of their data, which is what makes stability observable.
pub trait SortKey: Copy {
    /// The key by which the element is ordered.
    spec fn key(&self) -> int;

    /// Whether `self` is ordered before or together with `other`.
    fn le(&self, other: &Self) -> (r: bool)
        ensures
            r == (self.key() <= other.key()),
    ;
}

impl SortKey for i32 {
    open spec fn key(&self) -> int {
        *self as int
    }

    fn le(&self, other: &Self) -> (r: bool) {
        *self <= *other
    }
}

impl SortKey for i64 {
    open spec fn key(&self) -> int {
        *self as int
    }

    fn le(&self, other: &Self) -> (r: bool) {
        *self <= *other
    }
}

impl SortKey for u32 {
    open spec fn key(&self) -> int {
        *self as int
    }

    fn le(&self, other: &Self) -> (r: bool) {
        *self <= *other
    }
}

impl SortKey for u64 {
    open spec fn key(&self) -> int {
        *self as int
    }

    fn le(&self, other: &Self) -> (r: bool) {
        *self <= *other
    }
}

impl SortKey for usize {
    open spec fn key(&self) -> int {
        *self as int
    }

    fn le(&self, other: &Self) -> (r: bool) {
        *self <= *other
    }
}

impl SortKey for i8 {
    open spec fn key(&self) -> int {
        *self as int
    }

    fn le(&self, other: &Self) -> (r: bool) {
        *self <= *other
    }
}

impl SortKey for i16 {
    open spec fn key(&self) -> int {
        *self as int
    }

    fn le(&self, other: &Self) -> (r: bool) {
        *self <= *other
    }
}

impl SortKey for i128 {
    open spec fn key(&self) -> int {
        *self as int
    }

    fn le(&self, other: &Self) -> (r: bool) {
        *self <= *other
    }
}

impl SortKey for isize {
    open spec fn key(&self) -> int {
        *self as int
    }

    fn le(&self, other: &Self) -> (r: bool) {
        *self <= *other
    }
}

impl SortKey for u8 {
    open spec fn key(&self) -> int {
        *self as int
    }

    fn le(&self, other: &Self) -> (r: bool) {
        *self <= *other
    }
}

impl SortKey for u16 {
    open spec fn key(&self) -> int {
        *self as int
    }

    fn le(&self, other: &Self) -> (r: bool) {
        *self <= *other
    }
}

impl SortKey for u128 {
    open spec fn key(&self) -> int {
        *self as int
    }

    fn le(&self, other: &Self) -> (r: bool) {
        *self <= *other
    }
}

/// A key together with data that takes no part in the ordering.
#[derive(Clone, Copy, Debug, PartialEq, Eq)]
pub struct Tagged<V: Copy> {
    pub key: i64,
    pub tag: V,
}

impl<V: Copy> SortKey for Tagged<V> {
    open spec fn key(&self) -> int {
        self.key as int
    }

    fn le(&self, other: &Self) -> (r: bool) {
        self.key <= other.key
    }
}

/// The keys of `s` never decrease from left to right.
pub open spec fn is_sorted<T: SortKey>(s: Seq<T>) -> bool {
    forall|i: int, j: int| 0 <= i <= j < s.len() ==> (#[trigger] s[i]).key() <= (#[trigger] s[j]).key()
}

/// `a` and `b` hold the same elements, each as often as the other.
pub open spec fn is_permutation<T>(a: Seq<T>, b: Seq<T>) -> bool {
    a.to_multiset() == b.to_multiset()
}

/// The test for an element's key being `k`.
pub open spec fn has_key<T: SortKey>(k: int) -> spec_fn(T) -> bool {
    |x: T| x.key() == k
}

/// The elements of `s` whose key is `k`, in the order in which they stand in `s`.
pub open spec fn with_key<T: SortKey>(s: Seq<T>, k: int) -> Seq<T> {
    s.filter(has_key(k))
}

/// Elements with equal keys stand in `a` in the same order as in `b`.
pub open spec fn same_order_of_equals<T: SortKey>(a: Seq<T>, b: Seq<T>) -> bool {
    forall|k: int| #[trigger] with_key(a, k) == with_key(b, k)
}

/// The keys of `s` never decrease from left to right within `[lo, hi)`.
pub open spec fn is_sorted_between<T: SortKey>(s: Seq<T>, lo: int, hi: int) -> bool {
    forall|i: int, j: int| lo <= i <= j < hi ==> (#[trigger] s[i]).key() <= (#[trigger] s[j]).key()
}

/// `s` with the elements at `i` and `j` exchanged.
pub open spec fn swapped<T>(s: Seq<T>, i: int, j: int) -> Seq<T> {
    s.update(i, s[j]).update(j, s[i])
}

/// Exchanging two elements keeps the multiset of elements.
pub proof fn lemma_swapped_permutation<T>(s: Seq<T>, i: int, j: int)
    requires
        0 <= i < s.len(),
        0 <= j < s.len(),
    ensures
        is_permutation(swapped(s, i, j), s),
{
    broadcast use vstd::seq_lib::group_to_multiset_ensures;
    broadcast use vstd::multiset::group_multiset_axioms;

    assert(swapped(s, i, j).to_multiset() =~= s.to_multiset());
}

/// Appending an element appends it to the elements of its own key and to
/// those of no other.
pub proof fn lemma_with_key_push<T: SortKey>(s: Seq<T>, x: T, k: int)
    ensures
        with_key(s.push(x), k) == if x.key() == k {
            with_key(s, k).push(x)
        } else {
            with_key(s, k)
        },
{
    s.lemma_filter_push(x, has_key(k));
}

/// The elements of a concatenation with one key are those of the first part
/// followed by those of the second.
pub proof fn lemma_with_key_concat<T: SortKey>(a: Seq<T>, b: Seq<T>, k: int)
    ensures
        with_key(a + b, k) == with_key(a, k) + with_key(b, k),
{
    Seq::filter_distributes_over_add(a, b, has_key(k));
}

/// A sequence in which no element has the key `k` has no element to show
/// for it.
pub proof fn lemma_with_key_absent<T: SortKey>(s: Seq<T>, k: int)
    requires
        forall|i: int| 0 <= i < s.len() ==> (#[trigger] s[i]).key() != k,
    ensures
        with_key(s, k) == Seq::<T>::empty(),
    decreases s.len(),
{
    if s.len() == 0 {
        assert(s =~= Seq::<T>::empty());
        reveal(Seq::filter);
    } else {
        lemma_with_key_absent(s.drop_last(), k);
        lemma_with_key_push(s.drop_last(), s.last(), k);
        assert(s.drop_last().push(s.last()) =~= s);
    }
    assert(with_key(s, k) =~= Seq::<T>::empty());
}

/// Exchanging two neighbours with different keys keeps the order in which
/// the elements of each key stand.
pub proof fn lemma_swapped_neighbours_order<T: SortKey>(s: Seq<T>, i: int)
    requires
        0 <= i,
        i + 1 < s.len(),
        s[i].key() != s[i + 1].key(),
    ensures
        same_order_of_equals(swapped(s, i, i + 1), s),
{
    let front = s.subrange(0, i);
    let back = s.subrange(i + 2, s.len() as int);
    let x = s[i];
    let y = s[i + 1];
    assert(s =~= front.push(x).push(y) + back);
    assert(swapped(s, i, i + 1) =~= front.push(y).push(x) + back);
    assert forall|k: int| #[trigger] with_key(swapped(s, i, i + 1), k) == with_key(s, k) by {
        lemma_with_key_concat(front.push(x).push(y), back, k);
        lemma_with_key_concat(front.push(y).push(x), back, k);
        lemma_with_key_push(front, x, k);
        lemma_with_key_push(front, y, k);
        lemma_with_key_push(front.push(x), y, k);
        lemma_with_key_push(front.push(y), x, k);
    }
}

/// The empty sequence holds the empty multiset.
pub proof fn lemma_empty_multiset<T>()
    ensures
        Seq::<T>::empty().to_multiset() == Multiset::<T>::empty(),
{
    broadcast use vstd::multiset::group_multiset_properties;

    vstd::seq_lib::to_multiset_len(Seq::<T>::empty());
    assert(Seq::<T>::empty().to_multiset() =~= Multiset::<T>::empty());
}

/// Every element of a sequence occurs somewhere in each of its permutations.
pub proof fn lemma_permutation_member<T>(a: Seq<T>, b: Seq<T>, i: int) -> (k: int)
    requires
        is_permutation(a, b),
        0 <= i < a.len(),
    ensures
        0 <= k < b.len(),
        b[k] == a[i],
{
    broadcast use vstd::seq_lib::group_to_multiset_ensures;

    assert(a.contains(a[i]));
    assert(b.to_multiset().count(a[i]) > 0);
    assert(b.contains(a[i]));
    choose|k: int| 0 <= k < b.len() && b[k] == a[i]
}

/// Permuting the two parts of a concatenation permutes the whole.
pub proof fn lemma_permutation_of_parts<T>(a1: Seq<T>, b1: Seq<T>, a2: Seq<T>, b2: Seq<T>)
    requires
        is_permutation(a1, a2),
        is_permutation(b1, b2),
    ensures
        is_permutation(a1 + b1, a2 + b2),
{
    vstd::seq_lib::lemma_multiset_commutative(a1, b1);
    vstd::seq_lib::lemma_multiset_commutative(a2, b2);
}

/// `<[T]>::swap` exchanges the elements at the two indices and leaves the
/// others where they are; it panics on an index out of bounds, which the
/// precondition excludes.
pub assume_specification<A>[ <[A]>::swap ](slice: &mut [A], a: usize, b: usize)
    requires
        a < old(slice)@.len(),
        b < old(slice)@.len(),
    ensures
        final(slice)@ == swapped(old(slice)@, a as int, b as int),
;

} // verus!
