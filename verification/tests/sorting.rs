use algorithms::bubble_sort::{bubble_sort_lr, bubble_sort_rl};
use algorithms::count_sort::{
    count_sort, count_sort_impl, count_sort_stable, CountSortOutcome, TableKey,
};
use algorithms::heap_sort::{build_max_heap, heap_sort, heap_sort_impl, max_heapify};
use algorithms::insertion_sort::{
    insertion_sort, insertion_sort_alternative, insertion_sort_explicit,
};
use algorithms::merge_sort::{merge, merge_clrs, merge_sort};
use algorithms::order::Tagged;
use algorithms::quick_sort::{hoare_partitioning, lomuto_partitioning, quick_sort, Partitioner};

fn test_sorting_algorithm(f: fn(&mut [i32])) -> Result<(), ()> {
    let mut test_vectors = get_test_vectors();
    for (input, sorted) in test_vectors.iter_mut() {
        f(input);
        if !input.starts_with(sorted) {
            return Err(());
        }
    }
    Ok(())
}

fn get_test_vectors() -> [(Vec<i32>, Vec<i32>); 18] {
    [
        (vec![9, 2, 3, 4, 1, 6, 8, 19, 20, 34], vec![1, 2, 3, 4, 6, 8, 9, 19, 20, 34]),
        (vec![10, 80, 30, 70, 40, 50, 90], vec![10, 30, 40, 50, 70, 80, 90]),
        (vec![2, 3, 4, 5, 10, 1, 11], vec![1, 2, 3, 4, 5, 10, 11]),
        (vec![1, 2, 3, 4, 5, 6, 7, 8, 9], vec![1, 2, 3, 4, 5, 6, 7, 8, 9]),
        (vec![1, 5, 3, 4], vec![1, 3, 4, 5]),
        (vec![1, 2, 3, 0, 5], vec![0, 1, 2, 3, 5]),
        (vec![1, 2, 3], vec![1, 2, 3]),
        (vec![3, 1, 2], vec![1, 2, 3]),
        (vec![2, 1, 3], vec![1, 2, 3]),
        (vec![6, 1, 7, 9, 3, 8, 2, 5, 4, 0], vec![0, 1, 2, 3, 4, 5, 6, 7, 8, 9]),
        (vec![3, 2], vec![2, 3]),
        (vec![8, 3, 7, 9, 6, 1, 9, 10], vec![1, 3, 6, 7, 8, 9, 9, 10]),
        (vec![8, 2, 78, 892, 11, 0, 34], vec![0, 2, 8, 11, 34, 78, 892]),
        (
            vec![9, 03, 83, 9, 2, 0, 1, 65, 2, 822, 9, 11, 22, 3, 3, 3, 47],
            vec![0, 1, 2, 2, 3, 3, 3, 3, 9, 9, 9, 11, 22, 47, 65, 83, 822],
        ),
        (vec![-6, 9, 0, 1, 17, 91, 0, 178], vec![-6, 0, 0, 1, 9, 17, 91, 178]),
        (vec![-3, -2, -1, -9, -5, -1, -19, -33], vec![-33, -19, -9, -5, -3, -2, -1, -1]),
        (vec![-5, -6, -7, 0, 0, 0, 0, -8, 1, 2, 3], vec![-8, -7, -6, -5, 0, 0, 0, 0, 1, 2, 3]),
        (vec![2; 5], vec![2; 5]),
    ]
}

fn quick_sort_lomuto(src: &mut [i32]) {
    quick_sort(src, Partitioner::Lomuto)
}

fn quick_sort_hoare(src: &mut [i32]) {
    quick_sort(src, Partitioner::Hoare)
}

fn count_sort_unchecked(src: &mut [i32]) {
    count_sort(src);
}

/// A small deterministic generator, so that the corpus is the same on every run.
fn next_random(state: &mut u64) -> u64 {
    *state = state.wrapping_mul(6364136223846793005).wrapping_add(1442695040888963407);
    *state >> 33
}

fn random_vector(state: &mut u64, max_len: u64, spread: u64) -> Vec<i32> {
    let len = next_random(state) % (max_len + 1);
    (0..len).map(|_| (next_random(state) % spread) as i32 - (spread / 2) as i32).collect()
}

fn tagged(pairs: &[(i64, char)]) -> Vec<Tagged<char>> {
    pairs.iter().map(|&(key, tag)| Tagged { key, tag }).collect()
}

#[test]
fn bubble_sort_test() {
    assert!(test_sorting_algorithm(bubble_sort_lr).is_ok());
    assert!(test_sorting_algorithm(bubble_sort_rl).is_ok());
}

#[test]
fn insertion_sort_test() {
    assert!(test_sorting_algorithm(insertion_sort_alternative).is_ok());
    assert!(test_sorting_algorithm(insertion_sort_explicit).is_ok());
    assert!(test_sorting_algorithm(insertion_sort).is_ok());
}

#[test]
fn heap_sort_test() {
    assert!(test_sorting_algorithm(heap_sort).is_ok());
}

#[test]
fn merge_sort_test() {
    assert!(test_sorting_algorithm(merge_sort).is_ok());
}

#[test]
fn quick_sort_test() {
    for (input, sorted) in get_test_vectors().iter_mut() {
        let mut input2 = input.clone();
        quick_sort(&mut input2, Partitioner::Hoare);

        assert_eq!(&mut input2, sorted);
    }
}

#[test]
fn count_sort_test() {
    for (input, sorted) in get_test_vectors().iter_mut() {
        count_sort(input);

        if input.iter().any(|&v| v < 0) {
            continue;
        }

        assert_eq!(input, sorted);
    }
}

#[test]
fn quick_sort_lomuto_sorts_every_fixture() {
    for (input, sorted) in get_test_vectors().iter_mut() {
        quick_sort(input, Partitioner::Lomuto);
        assert_eq!(input, sorted);
    }
}

#[test]
fn every_sort_gives_the_exact_fixture_output() {
    let sorts: [fn(&mut [i32]); 9] = [
        bubble_sort_lr,
        bubble_sort_rl,
        insertion_sort,
        insertion_sort_explicit,
        insertion_sort_alternative,
        heap_sort,
        merge_sort,
        quick_sort_lomuto,
        quick_sort_hoare,
    ];
    for sort in sorts {
        for (input, sorted) in get_test_vectors().iter_mut() {
            sort(input);
            assert_eq!(input, sorted);
        }
    }
}

#[test]
fn first_fixture_under_every_sort() {
    let sorts: [fn(&mut [i32]); 10] = [
        bubble_sort_lr,
        bubble_sort_rl,
        insertion_sort,
        insertion_sort_explicit,
        insertion_sort_alternative,
        heap_sort,
        merge_sort,
        quick_sort_lomuto,
        quick_sort_hoare,
        count_sort_unchecked,
    ];
    for sort in sorts {
        let mut input = vec![9, 2, 3, 4, 1, 6, 8, 19, 20, 34];
        sort(&mut input);
        assert_eq!(input, vec![1, 2, 3, 4, 6, 8, 9, 19, 20, 34]);
        let mut equal = vec![2, 2, 2, 2, 2];
        sort(&mut equal);
        assert_eq!(equal, vec![2, 2, 2, 2, 2]);
    }
}

#[test]
fn negative_fixture_under_merge_and_quick_sort() {
    let sorts: [fn(&mut [i32]); 3] = [merge_sort, quick_sort_lomuto, quick_sort_hoare];
    for sort in sorts {
        let mut input = vec![-6, 9, 0, 1, 17, 91, 0, 178];
        sort(&mut input);
        assert_eq!(input, vec![-6, 0, 0, 1, 9, 17, 91, 178]);
    }
}

#[test]
fn empty_and_single_slices_are_left_alone() {
    let sorts: [fn(&mut [i32]); 10] = [
        bubble_sort_lr,
        bubble_sort_rl,
        insertion_sort,
        insertion_sort_explicit,
        insertion_sort_alternative,
        heap_sort,
        merge_sort,
        quick_sort_lomuto,
        quick_sort_hoare,
        count_sort_unchecked,
    ];
    for sort in sorts {
        let mut empty: Vec<i32> = vec![];
        sort(&mut empty);
        assert_eq!(empty, Vec::<i32>::new());
        let mut single = vec![7];
        sort(&mut single);
        assert_eq!(single, vec![7]);
        let mut pair = vec![5, 4];
        sort(&mut pair);
        assert_eq!(pair, vec![4, 5]);
    }
}

#[test]
fn random_corpus_is_sorted_like_the_standard_sort() {
    let sorts: [fn(&mut [i32]); 9] = [
        bubble_sort_lr,
        bubble_sort_rl,
        insertion_sort,
        insertion_sort_explicit,
        insertion_sort_alternative,
        heap_sort,
        merge_sort,
        quick_sort_lomuto,
        quick_sort_hoare,
    ];
    let mut state = 42u64;
    for _ in 0..60 {
        let input = random_vector(&mut state, 40, 21);
        let mut expected = input.clone();
        expected.sort();
        for sort in sorts {
            let mut output = input.clone();
            sort(&mut output);
            assert_eq!(output, expected);
        }
    }
}

#[test]
fn sorting_twice_is_sorting_once() {
    let sorts: [fn(&mut [i32]); 9] = [
        bubble_sort_lr,
        bubble_sort_rl,
        insertion_sort,
        insertion_sort_explicit,
        insertion_sort_alternative,
        heap_sort,
        merge_sort,
        quick_sort_lomuto,
        quick_sort_hoare,
    ];
    for sort in sorts {
        let mut once = vec![8, 3, 7, 9, 6, 1, 9, 10];
        sort(&mut once);
        let mut twice = once.clone();
        sort(&mut twice);
        assert_eq!(once, vec![1, 3, 6, 7, 8, 9, 9, 10]);
        assert_eq!(twice, once);
    }
}

#[test]
fn merge_sort_keeps_the_order_of_equal_keys() {
    let mut input = tagged(&[(2, 'a'), (1, 'b'), (2, 'c'), (1, 'd'), (0, 'e'), (2, 'f'), (1, 'g')]);
    merge_sort(&mut input);
    assert_eq!(
        input,
        tagged(&[(0, 'e'), (1, 'b'), (1, 'd'), (1, 'g'), (2, 'a'), (2, 'c'), (2, 'f')])
    );
}

#[test]
fn bubble_and_insertion_sorts_keep_the_order_of_equal_keys() {
    let sorts: [fn(&mut [Tagged<char>]); 5] = [
        bubble_sort_lr,
        bubble_sort_rl,
        insertion_sort,
        insertion_sort_explicit,
        insertion_sort_alternative,
    ];
    for sort in sorts {
        let mut input = tagged(&[(2, 'a'), (1, 'b'), (2, 'c'), (1, 'd'), (0, 'e'), (2, 'f')]);
        sort(&mut input);
        assert_eq!(input, tagged(&[(0, 'e'), (1, 'b'), (1, 'd'), (2, 'a'), (2, 'c'), (2, 'f')]));
    }
}

#[test]
fn stable_sort_of_a_sorted_slice_moves_nothing() {
    let sorted = tagged(&[(0, 'x'), (0, 'a'), (1, 'q'), (1, 'b'), (1, 'z'), (5, 'c')]);
    let mut output = sorted.clone();
    merge_sort(&mut output);
    assert_eq!(output, sorted);
}

#[test]
fn merge_takes_the_left_element_of_a_tie() {
    let mut halves = tagged(&[(1, 'a'), (3, 'b'), (3, 'c'), (1, 'd'), (3, 'e'), (4, 'f')]);
    merge(&mut halves, 3);
    assert_eq!(
        halves,
        tagged(&[(1, 'a'), (1, 'd'), (3, 'b'), (3, 'c'), (3, 'e'), (4, 'f')])
    );
    let mut halves = tagged(&[(1, 'a'), (3, 'b'), (3, 'c'), (1, 'd'), (3, 'e'), (4, 'f')]);
    merge_clrs(&mut halves, 3);
    assert_eq!(
        halves,
        tagged(&[(1, 'a'), (1, 'd'), (3, 'b'), (3, 'c'), (3, 'e'), (4, 'f')])
    );
}

#[test]
fn merge_with_an_empty_half() {
    let mut all_left = vec![1, 2, 3];
    merge(&mut all_left, 3);
    assert_eq!(all_left, vec![1, 2, 3]);
    let mut all_right = vec![1, 2, 3];
    merge_clrs(&mut all_right, 0);
    assert_eq!(all_right, vec![1, 2, 3]);
}

#[test]
fn lomuto_puts_the_pivot_in_its_place() {
    let mut input = vec![3, 1, 2];
    assert_eq!(Partitioner::Lomuto.run(&mut input), (1, 2));
    assert_eq!(input, vec![1, 2, 3]);

    let mut input = vec![9, 2, 3, 4, 1, 6, 8, 19, 20, 5];
    let q = lomuto_partitioning(&mut input);
    assert_eq!(q, 4);
    assert_eq!(input, vec![2, 3, 4, 1, 5, 6, 8, 19, 20, 9]);
}

#[test]
fn lomuto_keeps_duplicates_of_the_pivot_on_the_left() {
    let mut input = vec![5, 7, 5, 9, 5];
    assert_eq!(Partitioner::Lomuto.run(&mut input), (2, 3));
    assert_eq!(input, vec![5, 5, 5, 9, 7]);
}

#[test]
fn hoare_splits_around_the_value_of_the_first_element() {
    let mut input = vec![3, 1, 2];
    assert_eq!(Partitioner::Hoare.run(&mut input), (2, 2));
    assert_eq!(input, vec![2, 1, 3]);

    let mut input = vec![5, 9, 1, 5, 7, 2];
    let q = hoare_partitioning(&mut input);
    assert_eq!(q, 2);
    assert_eq!(input, vec![2, 5, 1, 9, 7, 5]);

    let mut single = vec![4];
    assert_eq!(Partitioner::Hoare.run(&mut single), (1, 1));
    assert_eq!(single, vec![4]);
}

#[test]
fn partitions_of_a_random_corpus_are_split_correctly() {
    let mut state = 7u64;
    for _ in 0..200 {
        let input = random_vector(&mut state, 30, 15);
        if input.len() < 3 {
            continue;
        }
        for partitioner in [Partitioner::Lomuto, Partitioner::Hoare] {
            let mut parted = input.clone();
            let (end_left, start_right) = partitioner.run(&mut parted);
            assert!(end_left <= start_right && start_right <= parted.len());
            assert!(end_left < parted.len() && start_right > 0);
            for a in 0..end_left {
                for b in end_left..parted.len() {
                    assert!(parted[a] <= parted[b]);
                }
            }
            for a in 0..start_right {
                for b in start_right..parted.len() {
                    assert!(parted[a] <= parted[b]);
                }
            }
            if partitioner == Partitioner::Lomuto {
                assert_eq!(start_right, end_left + 1);
                for b in start_right..parted.len() {
                    assert!(parted[end_left] < parted[b]);
                }
            }
            let mut sorted_before = input.clone();
            sorted_before.sort();
            let mut sorted_after = parted.clone();
            sorted_after.sort();
            assert_eq!(sorted_before, sorted_after);
        }
    }
}

#[test]
fn count_sort_reports_a_negative_value_and_changes_nothing() {
    let mut input = vec![-6, 9, 0, 1, 17, 91, 0, 178];
    assert_eq!(count_sort(&mut input), CountSortOutcome::Inapplicable);
    assert_eq!(input, vec![-6, 9, 0, 1, 17, 91, 0, 178]);

    let mut last_negative = vec![3, 2, 1, -1];
    assert_eq!(count_sort(&mut last_negative), CountSortOutcome::Inapplicable);
    assert_eq!(last_negative, vec![3, 2, 1, -1]);

    let mut single = vec![-1];
    assert_eq!(count_sort(&mut single), CountSortOutcome::Inapplicable);
    assert_eq!(single, vec![-1]);
}

#[test]
fn count_sort_sorts_values_that_are_not_negative() {
    let mut input = vec![9, 3, 83, 9, 2, 0, 1, 65, 2, 822, 9, 11, 22, 3, 3, 3, 47];
    assert_eq!(count_sort(&mut input), CountSortOutcome::Sorted);
    assert_eq!(input, vec![0, 1, 2, 2, 3, 3, 3, 3, 9, 9, 9, 11, 22, 47, 65, 83, 822]);

    let mut empty: Vec<i32> = vec![];
    assert_eq!(count_sort(&mut empty), CountSortOutcome::Sorted);

    let mut with_table = vec![4, 0, 4, 1];
    count_sort_impl(&mut with_table, 6);
    assert_eq!(with_table, vec![0, 1, 4, 4]);
}

#[test]
fn heap_is_built_and_repaired() {
    let mut input = vec![1, 5, 3, 4, 9, 2];
    build_max_heap(&mut input);
    assert_eq!(input, vec![9, 5, 3, 4, 1, 2]);
    for child in 1..input.len() {
        assert!(input[child] <= input[(child - 1) / 2]);
    }

    let mut broken = vec![1, 9, 8, 4, 5, 6, 7];
    max_heapify(&mut broken, 0);
    assert_eq!(broken, vec![9, 5, 8, 4, 1, 6, 7]);

    let mut ties = vec![2, 2, 2];
    max_heapify(&mut ties, 0);
    assert_eq!(ties, vec![2, 2, 2]);

    let mut pair = vec![2, 1];
    heap_sort_impl(&mut pair);
    assert_eq!(pair, vec![1, 2]);
}

#[test]
fn stable_count_sort_keeps_the_order_of_equal_keys() {
    let mut input = tagged(&[(2, 'a'), (1, 'b'), (2, 'c'), (1, 'd'), (0, 'e'), (2, 'f'), (1, 'g')]);
    assert_eq!(count_sort_stable(&mut input), CountSortOutcome::Sorted);
    assert_eq!(
        input,
        tagged(&[(0, 'e'), (1, 'b'), (1, 'd'), (1, 'g'), (2, 'a'), (2, 'c'), (2, 'f')])
    );
}

#[test]
fn stable_count_sort_sorts_the_fixtures_without_negative_values() {
    for (input, sorted) in get_test_vectors().iter_mut() {
        let before = input.clone();
        let outcome = count_sort_stable(input);
        if before.iter().any(|&v| v < 0) {
            assert_eq!(outcome, CountSortOutcome::Inapplicable);
            assert_eq!(*input, before);
        } else {
            assert_eq!(outcome, CountSortOutcome::Sorted);
            assert_eq!(input, sorted);
        }
    }
}

#[test]
fn stable_count_sort_refuses_a_key_that_is_no_index() {
    let mut negative = tagged(&[(3, 'a'), (-1, 'b'), (0, 'c')]);
    assert_eq!(count_sort_stable(&mut negative), CountSortOutcome::Inapplicable);
    assert_eq!(negative, tagged(&[(3, 'a'), (-1, 'b'), (0, 'c')]));

    let mut too_great = vec![1usize, usize::MAX, 0];
    assert_eq!(count_sort_stable(&mut too_great), CountSortOutcome::Inapplicable);
    assert_eq!(too_great, vec![1, usize::MAX, 0]);

    let mut empty: Vec<u64> = vec![];
    assert_eq!(count_sort_stable(&mut empty), CountSortOutcome::Sorted);
    let mut single = vec![7u32];
    assert_eq!(count_sort_stable(&mut single), CountSortOutcome::Sorted);
    assert_eq!(single, vec![7]);
}

#[test]
fn keys_become_table_indices() {
    assert_eq!(5i32.table_index(), Some(5));
    assert_eq!((-5i32).table_index(), None);
    assert_eq!(0i64.table_index(), Some(0));
    assert_eq!(i64::MIN.table_index(), None);
    assert_eq!(9u32.table_index(), Some(9));
    assert_eq!(9u64.table_index(), Some(9));
    assert_eq!(9usize.table_index(), Some(9));
    assert_eq!(Tagged { key: 4, tag: 'x' }.table_index(), Some(4));
    assert_eq!(Tagged { key: -4, tag: 'x' }.table_index(), None);
}

#[test]
fn stable_count_sort_agrees_with_merge_sort_on_a_random_corpus() {
    let mut state = 99u64;
    for _ in 0..100 {
        let len = next_random(&mut state) % 50;
        let input: Vec<Tagged<u64>> = (0..len)
            .map(|position| Tagged { key: (next_random(&mut state) % 8) as i64, tag: position })
            .collect();
        let mut by_count = input.clone();
        let mut by_merge = input.clone();
        assert_eq!(count_sort_stable(&mut by_count), CountSortOutcome::Sorted);
        merge_sort(&mut by_merge);
        assert_eq!(by_count, by_merge);
    }
}

#[test]
fn quick_sort_may_reorder_equal_keys() {
    let mut input = tagged(&[(1, 'a'), (1, 'b'), (1, 'c')]);
    quick_sort(&mut input, Partitioner::Hoare);
    assert_eq!(input, tagged(&[(1, 'c'), (1, 'b'), (1, 'a')]));
    let mut input = tagged(&[(1, 'a'), (1, 'b'), (1, 'c')]);
    quick_sort(&mut input, Partitioner::Lomuto);
    assert_eq!(input, tagged(&[(1, 'a'), (1, 'b'), (1, 'c')]));
}
