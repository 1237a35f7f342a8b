use kupsy::intervals::{merge_2_interval_iters, Interval};

fn tiv(pairs: &[(u32, u32)]) -> Vec<Interval<u32>> {
    pairs.iter().map(|&pair| pair.into()).collect()
}

#[test]
fn test_empty_vecs() {
    let a = tiv(&[]);
    let b = tiv(&[]);
    let expected = tiv(&[]);
    assert_eq!(merge_2_interval_iters(&a, &b), expected);
}

#[test]
fn test_one_empty_vec() {
    let a = tiv(&[]);
    let b = tiv(&[(1, 3)]);
    let expected = tiv(&[(1, 3)]);
    assert_eq!(merge_2_interval_iters(&a, &b), expected);
}

#[test]
fn merge_iters_test_disjoint_intervals() {
    let a = tiv(&[(1, 3), (5, 7)]);
    let b = tiv(&[(4, 6), (8, 10)]);
    let expected = tiv(&[(1, 3), (4, 7), (8, 10)]);
    assert_eq!(merge_2_interval_iters(&a, &b), expected);
}

#[test]
fn merge_iters_test_overlapping_intervals() {
    let a = tiv(&[(1, 3), (6, 8)]);
    let b = tiv(&[(2, 5), (7, 9)]);
    let expected = tiv(&[(1, 5), (6, 9)]);
    assert_eq!(merge_2_interval_iters(&a, &b), expected);
}

#[test]
fn merge_iters_test_nested_intervals() {
    let a = tiv(&[(2, 4), (6, 8)]);
    let b = tiv(&[(1, 7)]);
    let expected = tiv(&[(1, 8)]);
    assert_eq!(merge_2_interval_iters(&a, &b), expected);
}

#[test]
fn merge_iters_test_adjacent_intervals() {
    let a = tiv(&[(1, 3), (5, 7)]);
    let b = tiv(&[(3, 5)]);
    let expected = tiv(&[(1, 7)]);
    assert_eq!(merge_2_interval_iters(&a, &b), expected);
}

#[test]
fn merge_of_two_with_equal_starts() {
    let a = tiv(&[(1, 3), (6, 7)]);
    let b = tiv(&[(1, 2), (6, 9)]);
    assert_eq!(merge_2_interval_iters(&a, &b), tiv(&[(1, 3), (6, 9)]));
    assert_eq!(merge_2_interval_iters(&b, &a), tiv(&[(1, 3), (6, 9)]));
}

#[test]
fn merge_of_two_when_the_first_runs_out() {
    let a = tiv(&[(1, 2)]);
    let b = tiv(&[(2, 3), (5, 6), (6, 8)]);
    assert_eq!(merge_2_interval_iters(&a, &b), tiv(&[(1, 3), (5, 8)]));
    assert_eq!(merge_2_interval_iters(&b, &a), tiv(&[(1, 3), (5, 8)]));
}
