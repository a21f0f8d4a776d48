use algorithms::digits::{count_max_digits, get_digit, BASE_10};

#[test]
fn test_digits_count() {
    assert_eq!(count_max_digits(&mut [123123]), 6);
    assert_eq!(count_max_digits(&mut [0, 0, 0]), 1);
    assert_eq!(count_max_digits(&mut [u128::MAX]), 39);
}

#[test]
fn test_get_digit() {
    assert_eq!(get_digit(123123, 1), 3);
    assert_eq!(get_digit(123123, 3), 1);
    assert_eq!(get_digit(193123, 5), 9);
    assert_eq!(get_digit(0, 2), 0);
}

#[test]
fn digits_of_the_greatest_number_are_counted() {
    assert_eq!(count_max_digits(&[7, 1234, 99]), 4);
    assert_eq!(count_max_digits(&[1000, 999]), 4);
    assert_eq!(count_max_digits(&[9]), 1);
    assert_eq!(count_max_digits(&[10]), 2);
    assert_eq!(count_max_digits(&[99, 100, 5]), 3);
}

#[test]
fn digits_at_the_outer_places() {
    // u128::MAX is 340282366920938463463374607431768211455
    assert_eq!(get_digit(u128::MAX, 1), 5);
    assert_eq!(get_digit(u128::MAX, 2), 5);
    assert_eq!(get_digit(u128::MAX, 38), 4);
    assert_eq!(get_digit(u128::MAX, 39), 3);
    assert_eq!(get_digit(907, 2), 0);
    assert_eq!(get_digit(907, 4), 0);
    assert_eq!(BASE_10, 10);
}
