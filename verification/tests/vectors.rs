use rust_server::collections::vectors::{median, mode, selection_sort};

#[test]
fn median_of_odd_and_even_lists() {
    assert_eq!(None, median(&[]));
    assert_eq!(Some(7), median(&[7]));
    assert_eq!(Some(3), median(&[5, 1, 3]));
    assert_eq!(Some(2), median(&[4, 1, 3, 2]));
    assert_eq!(Some(-1), median(&[-1, -2]));
    assert_eq!(
        Some(5),
        median(&[23, 4, 1, 98, 32, 1, -32, 6, -293, -100, 29, 1000])
    );
}

#[test]
fn mode_is_the_first_to_reach_the_greatest_count() {
    assert_eq!(None, mode(&[]));
    assert_eq!(Some(&1), mode(&[23, 4, 1, 98, 32, 1, -32, 6, -293, -100, 29, 1000]));
    assert_eq!(Some(&2), mode(&[1, 2, 2, 1]));
    assert_eq!(Some(&9), mode(&[9, 8, 7]));
}

#[test]
fn selection_sort_sorts() {
    assert_eq!(Vec::<i32>::new(), selection_sort(&[]));
    assert_eq!(vec![-3, 0, 2, 2, 9], selection_sort(&[2, 9, -3, 2, 0]));
}
