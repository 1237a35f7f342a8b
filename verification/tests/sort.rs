use kupsy::intervals::{sort_by_end, sort_by_start, Interval};

fn tiv(pairs: &[(u32, u32)]) -> Vec<Interval<u32>> {
    pairs.iter().map(|&pair| pair.into()).collect()
}

#[test]
fn sort_by_start_breaks_ties_by_end() {
    let mut v = tiv(&[(5, 7), (1, 9), (5, 6), (1, 3), (0, 2), (5, 5)]);
    sort_by_start(&mut v);
    assert_eq!(v, tiv(&[(0, 2), (1, 3), (1, 9), (5, 5), (5, 6), (5, 7)]));
}

#[test]
fn sort_by_start_of_nothing_and_of_one() {
    let mut none = tiv(&[]);
    sort_by_start(&mut none);
    assert_eq!(none, tiv(&[]));
    let mut one = tiv(&[(3, 4)]);
    sort_by_start(&mut one);
    assert_eq!(one, tiv(&[(3, 4)]));
}

#[test]
fn sorting_twice_is_sorting_once() {
    let mut v = tiv(&[(5, 7), (1, 9), (5, 6), (1, 3), (0, 2), (5, 5), (1, 3)]);
    sort_by_start(&mut v);
    let once = v.clone();
    sort_by_start(&mut v);
    assert_eq!(v, once);
}

#[test]
fn sort_by_end_orders_ends_and_keeps_ties_in_place() {
    let mut v = tiv(&[(5, 7), (1, 9), (6, 7), (1, 3), (0, 2), (2, 7)]);
    sort_by_end(&mut v);
    assert_eq!(v, tiv(&[(0, 2), (1, 3), (5, 7), (6, 7), (2, 7), (1, 9)]));
}

#[test]
fn sort_of_a_long_collection() {
    let mut v: Vec<Interval<u32>> = (0..500u32)
        .map(|i| ((i * 7919) % 503, (i * 7919) % 503 + i % 5).into())
        .collect();
    let mut expected = v.clone();
    expected.sort_by(|a, b| a.start.cmp(&b.start).then(a.end.cmp(&b.end)));
    sort_by_start(&mut v);
    assert_eq!(v, expected);
}
