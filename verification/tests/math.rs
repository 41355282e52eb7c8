use search_core::math::{mean, sum};

#[test]
fn sum_adds_two_numbers() {
    assert_eq!(sum(2, 3), 5);
    assert_eq!(sum(-7, 7), 0);
    assert_eq!(sum(i32::MAX, 0), i32::MAX);
    assert_eq!(sum(i32::MIN, i32::MAX), -1);
}

#[test]
fn mean_returns_the_total() {
    assert_eq!(mean(vec![1, 2, 3]), 6);
    assert_eq!(mean(vec![]), 0);
    assert_eq!(mean(vec![-5]), -5);
    assert_eq!(mean(vec![i32::MAX, -1, -i32::MAX]), -1);
}
