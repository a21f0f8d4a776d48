//! The contiguous run of greatest sum: a linear scan and a divide-and-conquer
//! search.
//!
//! Elements are `i64` and sums are `i128`, which is wide enough for the sum
//! of any run of any slice. The empty run has sum zero and is preferred over
//! every run of negative sum, so the greatest sum is never negative. Among
//! several runs of greatest sum both searches return the longest, and among
//! the longest the leftmost.

use vstd::prelude::*;

verus! {

/// The sum of the elements of `s` in `[lo, hi)`; zero where the range is empty.
pub open spec fn range_sum(s: Seq<i64>, lo: int, hi: int) -> int
    decreases hi - lo,
{
    if lo >= hi {
        0
    } else {
        range_sum(s, lo, hi - 1) + s[hi - 1]
    }
}

/// `sum` bounds the sum of every run of `s` within `[lo, hi)`.
pub open spec fn bounds_all_runs(s: Seq<i64>, lo: int, hi: int, sum: int) -> bool {
    forall|a: int, b: int| lo <= a <= b <= hi ==> #[trigger] range_sum(s, a, b) <= sum
}

/// Every element of `s` in `[lo, hi)` is negative.
pub open spec fn all_negative(s: Seq<i64>, lo: int, hi: int) -> bool {
    forall|i: int| lo <= i < hi ==> #[trigger] s[i] < 0
}

/// The run `[l, r)` has the sum `sum`, and every other run within `[lo, hi)`
/// with that sum is shorter, or as long and further to the right.
pub open spec fn is_preferred_run(s: Seq<i64>, lo: int, hi: int, l: int, r: int, sum: int) -> bool {
    &&& lo <= l < r <= hi
    &&& range_sum(s, l, r) == sum
    &&& forall|a: int, b: int|
        lo <= a < b <= hi && #[trigger] range_sum(s, a, b) == sum ==> b - a < r - l || (b - a == r - l
            && l <= a)
}

/// `best` and `sum` answer the search on `s` within `[lo, hi)`: `sum` is the
/// greatest sum of a run; `best` is the non-empty run `[best.0, best.1)` with
/// that sum that is preferred to the others; and there is no such run
/// exactly when every element is negative.
pub open spec fn is_max_run(s: Seq<i64>, lo: int, hi: int, best: Option<(usize, usize)>, sum: int) -> bool {
    &&& bounds_all_runs(s, lo, hi, sum)
    &&& best is None <==> all_negative(s, lo, hi)
    &&& match best {
        Some((l, r)) => is_preferred_run(s, lo, hi, l as int, r as int, sum),
        None => sum == 0,
    }
}

/// The slice-level reading of [`is_max_run`]: `best` is the content of the
/// preferred run of `s` with the greatest sum, `sum`.
pub open spec fn is_max_subarray(s: Seq<i64>, best: Option<Seq<i64>>, sum: int) -> bool {
    &&& bounds_all_runs(s, 0, s.len() as int, sum)
    &&& best is None <==> all_negative(s, 0, s.len() as int)
    &&& match best {
        Some(sub) => exists|l: int, r: int|
            sub == s.subrange(l, r) && #[trigger] is_preferred_run(s, 0, s.len() as int, l, r, sum),
        None => sum == 0,
    }
}

/// The rank by which two answers of equal sum are compared: no run at all
/// ranks below every run, and a longer run above a shorter one.
pub open spec fn run_rank(best: Option<(usize, usize)>) -> int {
    match best {
        Some((l, r)) => r - l,
        None => -1,
    }
}

/// The content of the slice that an answer holds, if it holds one.
pub open spec fn run_content(best: Option<&[i64]>) -> Option<Seq<i64>> {
    match best {
        Some(sub) => Some(sub@),
        None => None,
    }
}

/// A run is the sum of its two parts.
pub proof fn lemma_range_sum_split(s: Seq<i64>, lo: int, mid: int, hi: int)
    requires
        lo <= mid <= hi,
    ensures
        range_sum(s, lo, hi) == range_sum(s, lo, mid) + range_sum(s, mid, hi),
    decreases hi - mid,
{
    if mid < hi {
        lemma_range_sum_split(s, lo, mid, hi - 1);
    }
}

/// A run is bounded by its length times the bounds of an element.
pub proof fn lemma_range_sum_bounds(s: Seq<i64>, lo: int, hi: int)
    requires
        0 <= lo <= hi <= s.len(),
    ensures
        -(hi - lo) * 0x8000_0000_0000_0000 <= range_sum(s, lo, hi) <= (hi - lo) * 0x7fff_ffff_ffff_ffff,
    decreases hi - lo,
{
    if lo < hi {
        lemma_range_sum_bounds(s, lo, hi - 1);
    }
}

/// A non-empty run of negative elements has a negative sum.
pub proof fn lemma_negative_run(s: Seq<i64>, lo: int, hi: int)
    requires
        lo < hi,
        all_negative(s, lo, hi),
    ensures
        range_sum(s, lo, hi) < 0,
    decreases hi - lo,
{
    assert(s[hi - 1] < 0);
    if lo < hi - 1 {
        lemma_negative_run(s, lo, hi - 1);
    } else {
        assert(range_sum(s, lo, hi - 1) == 0);
    }
}

/// The search has one answer: two answers on the same range name the same
/// run and the same sum, whichever method found them.
pub proof fn lemma_max_run_unique(
    s: Seq<i64>,
    lo: int,
    hi: int,
    best1: Option<(usize, usize)>,
    sum1: int,
    best2: Option<(usize, usize)>,
    sum2: int,
)
    requires
        lo <= hi,
        is_max_run(s, lo, hi, best1, sum1),
        is_max_run(s, lo, hi, best2, sum2),
    ensures
        sum1 == sum2,
        best1 == best2,
{
    assert(range_sum(s, lo, lo) == 0);
}

/// The slice-level reading of [`lemma_max_run_unique`]: two answers on the
/// same slice carry the same sum and the same content.
pub proof fn lemma_max_subarray_unique(
    s: Seq<i64>,
    best1: Option<Seq<i64>>,
    sum1: int,
    best2: Option<Seq<i64>>,
    sum2: int,
)
    requires
        is_max_subarray(s, best1, sum1),
        is_max_subarray(s, best2, sum2),
    ensures
        sum1 == sum2,
        best1 == best2,
{
    assert(range_sum(s, 0, 0) == 0);
}

/// Whether the answer `x` is to be preferred to `y`: it has the greater sum,
/// or the same sum and the higher rank.
pub fn is_better(x: (Option<(usize, usize)>, i128), y: (Option<(usize, usize)>, i128)) -> (r: bool)
    requires
        x.0 matches Some((xl, xr)) ==> xl <= xr,
        y.0 matches Some((yl, yr)) ==> yl <= yr,
    ensures
        r == (x.1 > y.1 || (x.1 == y.1 && run_rank(x.0) > run_rank(y.0))),
{
    if x.1 != y.1 {
        x.1 > y.1
    } else {
        match (x.0, y.0) {
            (None, _) => false,
            (Some(_), None) => true,
            (Some((xl, xr)), Some((yl, yr))) => xr - xl > yr - yl,
        }
    }
}

/// Kadane's scan over the whole of `src`, with the run given by its bounds.
///
/// The running sum is that of the run since the last time it fell below
/// zero. That run replaces the best one so far when its sum is greater, or
/// the same and the run is longer.
pub fn max_run_kadane(src: &[i64]) -> (result: (Option<(usize, usize)>, i128))
    ensures
        is_max_run(src@, 0, src@.len() as int, result.0, result.1 as int),
{
    let n = src.len();
    let mut max_sum: i128 = 0;
    let mut cur_sum: i128 = 0;
    let mut best: Option<(usize, usize)> = None;
    let mut cur_left: usize = 0;
    let mut i: usize = 0;
    while i < n
        invariant
            n == src@.len(),
            i <= n,
            cur_left <= i,
            cur_sum == range_sum(src@, cur_left as int, i as int),
            0 <= cur_sum <= i * 0x8000_0000_0000_0000,
            0 <= max_sum,
            forall|a: int| 0 <= a <= i ==> #[trigger] range_sum(src@, a, i as int) <= cur_sum,
            forall|a: int| 0 <= a < cur_left ==> #[trigger] range_sum(src@, a, i as int) < cur_sum,
            bounds_all_runs(src@, 0, i as int, max_sum as int),
            best is None ==> all_negative(src@, 0, i as int),
            match best {
                Some((l, r)) => is_preferred_run(src@, 0, i as int, l as int, r as int, max_sum as int),
                None => max_sum == 0,
            },
        decreases n - i,
    {
        let ghost old_left = cur_left as int;
        let ghost old_max = max_sum as int;
        let ghost old_best = best;
        cur_sum = cur_sum + src[i] as i128;
        assert forall|a: int| 0 <= a <= i implies #[trigger] range_sum(src@, a, i + 1) <= cur_sum by {
            assert(range_sum(src@, a, i + 1) == range_sum(src@, a, i as int) + src@[i as int]);
        }
        assert forall|a: int| 0 <= a < old_left implies #[trigger] range_sum(src@, a, i + 1) < cur_sum by {
            assert(range_sum(src@, a, i + 1) == range_sum(src@, a, i as int) + src@[i as int]);
        }
        if cur_sum < 0 {
            cur_left = i + 1;
            cur_sum = 0;
        } else if is_better((Some((cur_left, i + 1)), cur_sum), (best, max_sum)) {
            max_sum = cur_sum;
            best = Some((cur_left, i + 1));
            proof {
                assert forall|a: int, b: int|
                    0 <= a < b <= i + 1 && #[trigger] range_sum(src@, a, b) == max_sum implies b - a < i + 1
                    - cur_left || (b - a == i + 1 - cur_left && cur_left <= a) by {
                    if b <= i {
                        if old_best is None {
                            lemma_negative_run(src@, a, b);
                        }
                    }
                }
            }
        }
        i += 1;
    }
    proof {
        if let Some((l, r)) = best {
            if all_negative(src@, 0, n as int) {
                lemma_negative_run(src@, l as int, r as int);
            }
        }
    }
    (best, max_sum)
}

/// The best run that crosses `mid`: the best extension to the left of `mid`
/// joined with the best extension to the right, each as long as it can be
/// among the extensions of greatest sum, and empty where every extension on
/// that side has a negative sum.
pub fn find_max_sum_cross_subarray(src: &[i64], lo: usize, mid: usize, hi: usize) -> (result: (
    Option<(usize, usize)>,
    i128,
))
    requires
        lo <= mid <= hi <= src@.len(),
    ensures
        forall|a: int, b: int| lo <= a <= mid <= b <= hi ==> #[trigger] range_sum(src@, a, b) <= result.1,
        result.0 is None <==> (forall|a: int| lo <= a < mid ==> #[trigger] range_sum(src@, a, mid as int) < 0)
            && (forall|b: int| mid < b <= hi ==> #[trigger] range_sum(src@, mid as int, b) < 0),
        match result.0 {
            Some((l, r)) => {
                &&& lo <= l <= mid <= r <= hi
                &&& l < r
                &&& range_sum(src@, l as int, r as int) == result.1
                &&& forall|a: int| lo <= a < l ==> #[trigger] range_sum(src@, a, mid as int) < range_sum(src@, l as int, mid as int)
                &&& forall|b: int| r < b <= hi ==> #[trigger] range_sum(src@, mid as int, b) < range_sum(src@, mid as int, r as int)
            },
            None => result.1 == 0,
        },
{
    let mut left: usize = mid;
    let mut cur_sum: i128 = 0;
    let mut left_sum: i128 = 0;
    let mut i: usize = mid;
    while i > lo
        invariant
            lo <= i <= left <= mid <= hi <= src@.len(),
            cur_sum == range_sum(src@, i as int, mid as int),
            left_sum == range_sum(src@, left as int, mid as int),
            0 <= left_sum,
            forall|a: int| i <= a <= mid ==> #[trigger] range_sum(src@, a, mid as int) <= left_sum,
            forall|a: int| i <= a < left ==> #[trigger] range_sum(src@, a, mid as int) < left_sum,
        decreases i,
    {
        i -= 1;
        proof {
            lemma_range_sum_split(src@, i as int, i + 1, mid as int);
            assert(range_sum(src@, i as int, i + 1) == src@[i as int]) by {
                assert(range_sum(src@, i as int, i as int) == 0);
            }
            lemma_range_sum_bounds(src@, i as int, mid as int);
        }
        cur_sum = cur_sum + src[i] as i128;
        if cur_sum >= left_sum {
            left_sum = cur_sum;
            left = i;
        }
    }
    let mut right: usize = mid;
    cur_sum = 0;
    let mut right_sum: i128 = 0;
    let mut j: usize = mid;
    while j < hi
        invariant
            lo <= mid <= right <= j <= hi <= src@.len(),
            cur_sum == range_sum(src@, mid as int, j as int),
            right_sum == range_sum(src@, mid as int, right as int),
            0 <= right_sum,
            forall|b: int| mid <= b <= j ==> #[trigger] range_sum(src@, mid as int, b) <= right_sum,
            forall|b: int| right < b <= j ==> #[trigger] range_sum(src@, mid as int, b) < right_sum,
        decreases hi - j,
    {
        proof {
            lemma_range_sum_bounds(src@, mid as int, j + 1);
        }
        cur_sum = cur_sum + src[j] as i128;
        j += 1;
        if cur_sum >= right_sum {
            right_sum = cur_sum;
            right = j;
        }
    }
    proof {
        lemma_range_sum_bounds(src@, left as int, mid as int);
        lemma_range_sum_bounds(src@, mid as int, right as int);
        lemma_range_sum_split(src@, left as int, mid as int, right as int);
        assert forall|a: int, b: int| lo <= a <= mid <= b <= hi implies #[trigger] range_sum(src@, a, b) <= left_sum + right_sum by {
            lemma_range_sum_split(src@, a, mid as int, b);
        }
    }
    if left == mid && right == mid {
        (None, 0)
    } else {
        (Some((left, right)), left_sum + right_sum)
    }
}

/// The divide-and-conquer search within `[lo, hi)`, with the run given by
/// its bounds. Of the best run of the left half, the best run across the
/// middle and the best run of the right half, the one of greatest sum is
/// returned; among equal sums the longest, and among those the first of the
/// three.
pub fn max_run_dc(src: &[i64], lo: usize, hi: usize) -> (result: (Option<(usize, usize)>, i128))
    requires
        lo <= hi <= src@.len(),
    ensures
        is_max_run(src@, lo as int, hi as int, result.0, result.1 as int),
    decreases hi - lo,
{
    if hi == lo {
        return (None, 0);
    }
    if hi - lo == 1 {
        assert(range_sum(src@, lo as int, hi as int) == src@[lo as int]) by {
            assert(range_sum(src@, lo as int, lo as int) == 0);
        }
        if src[lo] >= 0 {
            return (Some((lo, hi)), src[lo] as i128);
        }
        return (None, 0);
    }
    let mid = lo + (hi - lo) / 2;
    let in_left = max_run_dc(src, lo, mid);
    let across = find_max_sum_cross_subarray(src, lo, mid, hi);
    let in_right = max_run_dc(src, mid, hi);
    let mut best = in_left;
    if is_better(across, best) {
        best = across;
    }
    if is_better(in_right, best) {
        best = in_right;
    }
    proof {
        assert(range_sum(src@, lo as int, lo as int) == 0);
        assert(range_sum(src@, mid as int, mid as int) == 0);
        assert forall|a: int, b: int| lo <= a <= b <= hi implies #[trigger] range_sum(src@, a, b) <= best.1 by {
        }
        if all_negative(src@, lo as int, hi as int) {
            assert forall|a: int| lo <= a < mid implies #[trigger] range_sum(src@, a, mid as int) < 0 by {
                lemma_negative_run(src@, a, mid as int);
            }
            assert forall|b: int| mid < b <= hi implies #[trigger] range_sum(src@, mid as int, b) < 0 by {
                lemma_negative_run(src@, mid as int, b);
            }
        }
        if let Some((l, r)) = best.0 {
            if all_negative(src@, lo as int, hi as int) {
                lemma_negative_run(src@, l as int, r as int);
            }
            assert forall|a: int, b: int|
                lo <= a < b <= hi && #[trigger] range_sum(src@, a, b) == best.1 implies b - a < r - l || (b
                - a == r - l && l <= a) by {
                if b <= mid {
                    if in_left.0 is None {
                        lemma_negative_run(src@, a, b);
                    }
                } else if a >= mid {
                    if in_right.0 is None {
                        lemma_negative_run(src@, a, b);
                    }
                } else {
                    lemma_range_sum_split(src@, a, mid as int, b);
                    match across.0 {
                        Some((cl, cr)) => {
                            lemma_range_sum_split(src@, cl as int, mid as int, cr as int);
                            lemma_range_sum_split(src@, a, mid as int, cr as int);
                            lemma_range_sum_split(src@, cl as int, mid as int, b);
                            assert(range_sum(src@, a, cr as int) <= across.1);
                            assert(range_sum(src@, cl as int, b) <= across.1);
                        },
                        None => {
                            assert(range_sum(src@, a, mid as int) < 0);
                            assert(range_sum(src@, mid as int, b) < 0);
                        },
                    }
                }
            }
        }
    }
    best
}

/// Finds the contiguous run of `src` with the greatest sum by Kadane's
/// linear scan, and that sum.
///
/// Where every element is negative, or `src` is empty, there is no run to
/// return and the sum is zero. Among several runs of greatest sum the
/// longest is returned, and among the longest the leftmost.
pub fn find_max_sum_subarray_kadane(src: &[i64]) -> (result: (Option<&[i64]>, i128))
    ensures
        is_max_subarray(src@, run_content(result.0), result.1 as int),
{
    let (best, sum) = max_run_kadane(src);
    match best {
        Some((l, r)) => {
            assert(is_preferred_run(src@, 0, src@.len() as int, l as int, r as int, sum as int));
            (Some(vstd::slice::slice_subrange(src, l, r)), sum)
        },
        None => (None, sum),
    }
}

/// Finds the contiguous run of `src` with the greatest sum by divide and
/// conquer, and that sum.
///
/// Where every element is negative, or `src` is empty, there is no run to
/// return and the sum is zero. Among several runs of greatest sum the
/// longest is returned, and among the longest the leftmost.
pub fn find_max_sum_subarray_dc(src: &[i64]) -> (result: (Option<&[i64]>, i128))
    ensures
        is_max_subarray(src@, run_content(result.0), result.1 as int),
{
    let (best, sum) = max_run_dc(src, 0, src.len());
    match best {
        Some((l, r)) => {
            assert(is_preferred_run(src@, 0, src@.len() as int, l as int, r as int, sum as int));
            (Some(vstd::slice::slice_subrange(src, l, r)), sum)
        },
        None => (None, sum),
    }
}

} // verus!
