use kupsy::intervals::{intersection_2_interval_iters, Interval};

fn tiv(pairs: &[(u32, u32)]) -> Vec<Interval<u32>> {
    pairs.iter().map(|&pair| pair.into()).collect()
}

#[test]
fn intersection_empty_intervals() {
    let a = tiv(&[]);
    let b = tiv(&[]);

    let result = intersection_2_interval_iters(&a, &b);
    assert_eq!(result, tiv(&[]));
}

#[test]
fn one_empty_one_nonempty() {
    let a = tiv(&[]);
    let b = tiv(&[(1, 5)]);

    let result = intersection_2_interval_iters(&a, &b);
    assert_eq!(result, tiv(&[]));
}

#[test]
fn one_nonempty_one_empty() {
    let a = tiv(&[(1, 5)]);
    let b = tiv(&[]);

    let result = intersection_2_interval_iters(&a, &b);
    assert_eq!(result, tiv(&[]));
}

#[test]
fn disjoint_intervals() {
    let a = tiv(&[(1, 3)]);
    let b = tiv(&[(4, 6)]);

    let result = intersection_2_interval_iters(&a, &b);
    assert_eq!(result, tiv(&[]));
}

#[test]
fn overlapping_intervals() {
    let a = tiv(&[(1, 5)]);
    let b = tiv(&[(3, 7)]);

    let result = intersection_2_interval_iters(&a, &b);
    assert_eq!(result, tiv(&[(3, 5)]));
}

#[test]
fn multiple_overlapping_intervals() {
    let a = tiv(&[(1, 5), (4, 8)]);
    let b = tiv(&[(3, 7)]);

    let result = intersection_2_interval_iters(&a, &b);
    assert_eq!(result, tiv(&[(3, 5), (4, 7)]));
}

#[test]
fn touching_but_not_overlapping() {
    let a = tiv(&[(0, 2)]);
    let b = tiv(&[(2, 3)]);

    let result = intersection_2_interval_iters(&a, &b);
    assert_eq!(result, tiv(&[]));
}

#[test]
fn one_interval_against_several() {
    let a = tiv(&[(0, 10)]);
    let b = tiv(&[(1, 2), (4, 6), (9, 12)]);

    assert_eq!(intersection_2_interval_iters(&a, &b), tiv(&[(1, 2), (4, 6), (9, 10)]));
    assert_eq!(intersection_2_interval_iters(&b, &a), tiv(&[(1, 2), (4, 6), (9, 10)]));
}

#[test]
fn intersection_with_itself() {
    let a = tiv(&[(1, 2), (4, 6), (9, 12)]);

    assert_eq!(intersection_2_interval_iters(&a, &a), a);
}
