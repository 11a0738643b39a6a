use result_analyzer::partition::{partition, partition_outlier, percentile, sort, StatsError};

#[test]
fn partition_splits_by_predicate_in_order() {
    let data = vec![1, 2, 3, 4, 5];
    let (even, odd) = partition(&data, |pair: &(usize, &i32)| *pair.1 % 2 == 0);
    assert_eq!(even, vec![&2, &4]);
    assert_eq!(odd, vec![&1, &3, &5]);
}

#[test]
fn partition_predicate_sees_positions() {
    let data = vec![10, 10, 10, 10];
    let (first_half, rest) = partition(&data, |pair: &(usize, &i32)| pair.0 < 2);
    assert_eq!(first_half.len(), 2);
    assert_eq!(rest.len(), 2);
}

#[test]
fn partition_of_empty_input_is_two_empty_parts() {
    let data: Vec<i32> = Vec::new();
    let (a, b) = partition(&data, |_pair: &(usize, &i32)| true);
    assert!(a.is_empty());
    assert!(b.is_empty());
}

#[test]
fn partition_is_lossless() {
    let data = vec![7, 3, 7, 1, 9, 3];
    let (big, small) = partition(&data, |pair: &(usize, &i32)| *pair.1 > 4);
    assert_eq!(big.len() + small.len(), data.len());
    let mut all: Vec<i32> = big.iter().chain(small.iter()).map(|x| **x).collect();
    all.sort();
    let mut expected = data.clone();
    expected.sort();
    assert_eq!(all, expected);
}

#[test]
fn sort_orders_by_key_and_keeps_ties_stable() {
    let data = vec![(1usize, 'a'), (0, 'b'), (1, 'c'), (0, 'd'), (2, 'e')];
    let sorted = sort(&data, |x: &(usize, char)| x.0);
    let letters: Vec<char> = sorted.iter().map(|x| x.1).collect();
    assert_eq!(letters, vec!['b', 'd', 'a', 'c', 'e']);
    assert_eq!(sorted.len(), data.len());
    assert_eq!(data[0], (1, 'a'));
}

#[test]
fn sort_of_empty_input_is_empty() {
    let data: Vec<usize> = Vec::new();
    assert!(sort(&data, |x: &usize| *x).is_empty());
}

#[test]
fn percentile_zero_returns_first_element() {
    let data = vec![10, 20, 30];
    assert_eq!(percentile(0, 1, &data), Ok(&10));
}

#[test]
fn percentile_one_is_out_of_range() {
    let data = vec![10, 20, 30];
    assert_eq!(percentile(1, 1, &data), Err(StatsError::IndexOutOfRange));
}

#[test]
fn percentile_quartiles_pick_floor_index() {
    let data = vec![1, 2, 3, 4, 5, 100];
    assert_eq!(percentile(1, 4, &data), Ok(&2));
    assert_eq!(percentile(3, 4, &data), Ok(&5));
    assert_eq!(percentile(1, 2, &data), Ok(&4));
}

#[test]
fn percentile_on_empty_data_is_out_of_range() {
    let data: Vec<i32> = Vec::new();
    assert_eq!(percentile(0, 1, &data), Err(StatsError::IndexOutOfRange));
}

#[test]
fn percentile_rejects_invalid_fraction() {
    let data = vec![1, 2, 3];
    assert_eq!(percentile(2, 1, &data), Err(StatsError::InvalidFraction));
    assert_eq!(percentile(0, 0, &data), Err(StatsError::InvalidFraction));
}

#[test]
fn outlier_partition_keeps_values_within_both_fences() {
    let data: Vec<i64> = vec![1, 2, 3, 4, 5, 100];
    let kept = partition_outlier(&data, |x: &i64| *x).unwrap();
    assert_eq!(kept, vec![&1, &2, &3, &4, &5]);
}

#[test]
fn outlier_partition_drops_low_outliers_too() {
    let data: Vec<i64> = vec![-100, 10, 11, 12, 13, 14];
    let kept = partition_outlier(&data, |x: &i64| *x).unwrap();
    assert_eq!(kept, vec![&10, &11, &12, &13, &14]);
}

#[test]
fn outlier_partition_of_empty_data_is_reported() {
    let data: Vec<i64> = Vec::new();
    assert_eq!(partition_outlier(&data, |x: &i64| *x), Err(StatsError::IndexOutOfRange));
}
