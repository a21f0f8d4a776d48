use algorithms::max_subarray::{
    find_max_sum_cross_subarray, find_max_sum_subarray_dc, find_max_sum_subarray_kadane, is_better,
    max_run_dc, max_run_kadane,
};

fn next_random(state: &mut u64) -> u64 {
    *state = state.wrapping_mul(6364136223846793005).wrapping_add(1442695040888963407);
    *state >> 33
}

fn greatest_sum_by_enumeration(src: &[i64]) -> i128 {
    let mut best: i128 = 0;
    for lo in 0..src.len() {
        let mut sum: i128 = 0;
        for hi in lo..src.len() {
            sum += src[hi] as i128;
            if sum > best {
                best = sum;
            }
        }
    }
    best
}

#[test]
fn base_max_subarray_test() {
    let test_cases: [(Vec<i64>, i128); 13] = [
        (
            vec![
                22, -27, 38, -34, 49, 40, 13, -44, -13, 28, 46, 7, -26, 42, 29, 0, -6, 35, 23, -37, 10, 12, -2, 18, -12, -49, -10, 37, -5, 17, 6, -11, -22,
                -17, -50, -40, 44, 14, -41, 19, -15, 45, -23, 48, -1, -39, -46, 15, 3, -32, -29, -48, -19, 27, -33, -8, 11, 21, -43, 24, 5, 34, -36, -9, 16,
                -31, -7, -24, -47, -14, -16, -18, 39, -30, 33, -45, -38, 41, -3, 4, -25, 20, -35, 32, 26, 47, 2, -4, 8, 9, 31, -28, 36, 1, -21, 30, 43, 25,
                -20, -42,
            ],
            239,
        ),
        (vec![-3, -4, -5, -6, -7], 0),
        (vec![0, 0, 1, 2], 3),
        (vec![1, 2, 3, 4], 10),
        (vec![0; 10], 0),
        (vec![0, 0, 0, -1, 0, 0], 0),
        (vec![100, 0, 0, 0, 0, 0, 0, 0], 100),
        (vec![-2, -3, -100, 0], 0),
        (vec![1, 2, 3, -100, 6], 6),
        (vec![0, -1], 0),
        (vec![-1, 0], 0),
        (vec![1, 2, 3, -2, 5], 9),
        (vec![10, -2, -3], 10),
    ];
    for (case_num, (case, res)) in test_cases.iter().enumerate() {
        let (slice1, sum1) = find_max_sum_subarray_dc(case);
        let (slice2, sum2) = find_max_sum_subarray_kadane(case);
        // the sums are what is compared; a difference in the runs is only shown
        if slice1 != slice2 {
            println!("Case {}. D&C result {:?} -- Kadane result {:?}", case_num + 1, slice1, slice2);
        }
        assert_eq!(*res, sum1);
        assert_eq!(sum1, sum2);
    }
}

#[test]
fn all_negative_input_has_no_run() {
    let input: Vec<i64> = vec![-3, -4, -5];
    assert_eq!(find_max_sum_subarray_dc(&input), (None, 0));
    assert_eq!(find_max_sum_subarray_kadane(&input), (None, 0));
}

#[test]
fn all_positive_input_is_its_own_best_run() {
    let input: Vec<i64> = vec![1, 2, 3, 4];
    let whole: &[i64] = &[1, 2, 3, 4];
    assert_eq!(find_max_sum_subarray_dc(&input), (Some(whole), 10));
    assert_eq!(find_max_sum_subarray_kadane(&input), (Some(whole), 10));
}

#[test]
fn a_deep_drop_cuts_the_run() {
    let input: Vec<i64> = vec![1, 2, 3, -100, 6];
    let front: &[i64] = &[1, 2, 3];
    assert_eq!(find_max_sum_subarray_dc(&input), (Some(front), 6));
    assert_eq!(find_max_sum_subarray_kadane(&input), (Some(front), 6));
}

#[test]
fn empty_input_has_no_run() {
    let input: Vec<i64> = vec![];
    assert_eq!(find_max_sum_subarray_dc(&input), (None, 0));
    assert_eq!(find_max_sum_subarray_kadane(&input), (None, 0));
}

#[test]
fn a_single_element_is_a_run_unless_negative() {
    let zero: &[i64] = &[0];
    assert_eq!(find_max_sum_subarray_dc(zero), (Some(zero), 0));
    assert_eq!(find_max_sum_subarray_kadane(zero), (Some(zero), 0));
    let negative: &[i64] = &[-1];
    assert_eq!(find_max_sum_subarray_dc(negative), (None, 0));
    assert_eq!(find_max_sum_subarray_kadane(negative), (None, 0));
}

#[test]
fn the_longest_run_of_greatest_sum_is_preferred() {
    let input: Vec<i64> = vec![0, 0, 5, -9, 5];
    assert_eq!(max_run_kadane(&input), (Some((0, 3)), 5));
    assert_eq!(max_run_dc(&input, 0, 5), (Some((0, 3)), 5));
    let input: Vec<i64> = vec![5, -9, 0, 5, 0];
    assert_eq!(max_run_kadane(&input), (Some((2, 5)), 5));
    assert_eq!(max_run_dc(&input, 0, 5), (Some((2, 5)), 5));
    let input: Vec<i64> = vec![5, -5, 5];
    assert_eq!(max_run_kadane(&input), (Some((0, 3)), 5));
    assert_eq!(max_run_dc(&input, 0, 3), (Some((0, 3)), 5));
    let input: Vec<i64> = vec![0, 5, 0];
    assert_eq!(max_run_kadane(&input), (Some((0, 3)), 5));
    assert_eq!(max_run_dc(&input, 0, 3), (Some((0, 3)), 5));
}

#[test]
fn the_leftmost_of_the_longest_runs_is_preferred() {
    let input: Vec<i64> = vec![5, -9, 5];
    assert_eq!(max_run_kadane(&input), (Some((0, 1)), 5));
    assert_eq!(max_run_dc(&input, 0, 3), (Some((0, 1)), 5));
    let input: Vec<i64> = vec![-1, 2, 3, -7, 3, 2, -7, 1, 4];
    assert_eq!(max_run_kadane(&input), (Some((1, 3)), 5));
    assert_eq!(max_run_dc(&input, 0, 9), (Some((1, 3)), 5));
    let input: Vec<i64> = vec![0, -1, 0, -1, 0];
    assert_eq!(max_run_kadane(&input), (Some((0, 1)), 0));
    assert_eq!(max_run_dc(&input, 0, 5), (Some((0, 1)), 0));
}

#[test]
fn divide_and_conquer_searches_the_range_it_is_given() {
    let input: Vec<i64> = vec![0, 0, 5, -9, 5];
    assert_eq!(max_run_dc(&input, 3, 5), (Some((4, 5)), 5));
    assert_eq!(max_run_dc(&input, 1, 4), (Some((1, 3)), 5));
    assert_eq!(max_run_dc(&input, 3, 4), (None, 0));
    assert_eq!(max_run_dc(&input, 2, 2), (None, 0));
}

#[test]
fn crossing_run_extends_as_far_as_it_pays() {
    let input: Vec<i64> = vec![1, 2, 3, -100, 6];
    assert_eq!(find_max_sum_cross_subarray(&input, 0, 2, 5), (Some((0, 3)), 6));
    let input: Vec<i64> = vec![-1, 0, -2, 4];
    assert_eq!(find_max_sum_cross_subarray(&input, 0, 2, 4), (Some((1, 4)), 2));
    let input: Vec<i64> = vec![-1, -1, -2, -4];
    assert_eq!(find_max_sum_cross_subarray(&input, 0, 2, 4), (None, 0));
    let input: Vec<i64> = vec![-1, 3, -2, -4];
    assert_eq!(find_max_sum_cross_subarray(&input, 0, 2, 4), (Some((1, 2)), 3));
}

#[test]
fn answers_are_ranked_by_sum_then_by_length() {
    assert!(is_better((Some((0, 1)), 5), (Some((0, 3)), 4)));
    assert!(!is_better((Some((0, 3)), 4), (Some((0, 1)), 5)));
    assert!(is_better((Some((0, 3)), 5), (Some((4, 5)), 5)));
    assert!(!is_better((Some((4, 5)), 5), (Some((0, 3)), 5)));
    assert!(is_better((Some((1, 2)), 0), (None, 0)));
    assert!(!is_better((None, 0), (Some((1, 2)), 0)));
    assert!(!is_better((None, 0), (None, 0)));
    assert!(!is_better((Some((2, 3)), 5), (Some((4, 5)), 5)));
    assert!(!is_better((Some((4, 5)), 5), (Some((2, 3)), 5)));
}

#[test]
fn sums_do_not_wrap_at_the_limits_of_the_element_type() {
    let input: Vec<i64> = vec![i64::MAX, i64::MAX, i64::MIN, i64::MAX, i64::MAX];
    let expected = 3 * (i64::MAX as i128) - 1;
    assert_eq!(find_max_sum_subarray_kadane(&input).1, expected);
    assert_eq!(find_max_sum_subarray_dc(&input).1, expected);
}

#[test]
fn both_methods_agree_on_a_random_corpus() {
    let mut state = 2024u64;
    for round in 0..300u64 {
        let len = if round < 4 { round } else { next_random(&mut state) % 201 };
        let input: Vec<i64> = (0..len).map(|_| (next_random(&mut state) % 101) as i64 - 50).collect();
        let (run1, sum1) = find_max_sum_subarray_dc(&input);
        let (run2, sum2) = find_max_sum_subarray_kadane(&input);
        assert_eq!(sum1, sum2);
        assert_eq!(run1, run2);
        assert_eq!(max_run_dc(&input, 0, input.len()), max_run_kadane(&input));
        assert_eq!(sum1, greatest_sum_by_enumeration(&input));
        assert_eq!(run1.is_none(), input.iter().all(|&x| x < 0));
        assert_eq!(run2.is_none(), input.iter().all(|&x| x < 0));
        if let Some(run) = run1 {
            assert_eq!(run.iter().map(|&x| x as i128).sum::<i128>(), sum1);
        }
        if let Some(run) = run2 {
            assert_eq!(run.iter().map(|&x| x as i128).sum::<i128>(), sum2);
        }
    }
}
