use kupsy::intervals::{Interval, IntervalVec};

fn tiv(pairs: &[(u32, u32)]) -> Vec<Interval<u32>> {
    pairs.iter().map(|&pair| pair.into()).collect()
}

#[test]
fn interval_vec_from_raw_intervals_is_canonical() {
    let v: IntervalVec<u32> = tiv(&[(5, 7), (1, 3), (2, 4), (7, 8), (10, 11)]).into();
    assert_eq!(v.inner_vec(), &tiv(&[(1, 4), (5, 8), (10, 11)]));
    assert_eq!(v.len(), 3);
    assert!(!v.is_empty());
    assert_eq!(v[1], (5, 8).into());
}

#[test]
fn interval_vec_from_several_collections() {
    let v: IntervalVec<u32> = vec![tiv(&[(1, 3), (5, 7)]), tiv(&[(4, 6), (8, 10)])].into();
    assert_eq!(v.inner_vec(), &tiv(&[(1, 3), (4, 7), (8, 10)]));
}

#[test]
fn interval_vec_inserts_and_merges() {
    let mut v = IntervalVec::new();
    assert!(v.is_empty());
    v.insert((6, 7).into());
    v.insert((1, 2).into());
    v.insert((3, 4).into());
    v.insert((13, 15).into());
    v.insert((10, 11).into());
    assert_eq!(v.inner_vec(), &tiv(&[(1, 2), (3, 4), (6, 7), (10, 11), (13, 15)]));
    v.insert((4, 8).into());
    assert_eq!(v.inner_vec(), &tiv(&[(1, 2), (3, 8), (10, 11), (13, 15)]));
}

#[test]
fn interval_vec_gaps_and_lengths() {
    let v: IntervalVec<u32> = tiv(&[(1, 3), (4, 6), (9, 12)]).into();
    assert_eq!(v.gaps().inner_vec(), &tiv(&[(3, 4), (6, 9)]));
    assert_eq!(v.interval_lengths(), vec![2, 2, 3]);
    let around_a_point: IntervalVec<u32> = tiv(&[(1, 3), (4, 4), (9, 12)]).into();
    assert_eq!(around_a_point.gaps().inner_vec(), &tiv(&[(3, 9)]));
    let one: IntervalVec<u32> = tiv(&[(1, 3)]).into();
    assert!(one.gaps().is_empty());
}

#[test]
fn interval_vec_takes_intervals_out() {
    let mut v: IntervalVec<u32> = tiv(&[(1, 2), (3, 4), (6, 7), (10, 11), (13, 15)]).into();
    assert_eq!(v.remove(1), (3, 4).into());
    assert_eq!(v.pop(), Some((13, 15).into()));
    assert_eq!(v.inner_vec(), &tiv(&[(1, 2), (6, 7), (10, 11)]));
    v.retain(|interval| interval.start != 6);
    assert_eq!(v.inner_vec(), &tiv(&[(1, 2), (10, 11)]));
    v.truncate(5);
    assert_eq!(v.len(), 2);
    v.truncate(1);
    assert_eq!(v.inner_vec(), &tiv(&[(1, 2)]));
    v.clear();
    assert!(v.is_empty());
    assert_eq!(v.pop(), None);
}

#[test]
fn interval_vec_of_an_intersection() {
    let v = IntervalVec::new_intersection(&vec![tiv(&[
        (0, 10), (12, 20),
    ]), tiv(&[(1, 4), (6, 14)])]);
    assert_eq!(v.inner_vec(), &tiv(&[(1, 4), (6, 10), (12, 14)]));
    let none: IntervalVec<u32> = IntervalVec::new_intersection(&vec![]);
    assert!(none.is_empty());
}
