use kupsy::intervals::{
    insert_interval_and_merge_pre_sorted, insert_interval_and_merge_pre_sorted_linear,
    sort_and_insert_interval_and_merge, sort_and_insert_interval_and_merge_linear, Interval,
};

fn tiv(pairs: &[(u32, u32)]) -> Vec<Interval<u32>> {
    pairs.iter().map(|&pair| pair.into()).collect()
}

#[test]
fn simple_a() {
    let mut vec = tiv(&[(1, 2), (5, 6)]);
    insert_interval_and_merge_pre_sorted_linear(&mut vec, (0, 1).into());
    assert_eq!(tiv(&[(0, 2), (5, 6)]), vec);
}

#[test]
fn simple_b() {
    let mut vec = tiv(&[(2, 4), (8, 9)]);
    insert_interval_and_merge_pre_sorted_linear(&mut vec, (2, 6).into());
    assert_eq!(tiv(&[(2, 6), (8, 9)]), vec);
}

#[test]
fn simple_c() {
    let mut vec = tiv(&[(1, 2), (3, 4), (6, 7), (10, 11), (13, 15)]);
    insert_interval_and_merge_pre_sorted_linear(&mut vec, (4, 8).into());
    assert_eq!(tiv(&[(1, 2), (3, 8), (10, 11), (13, 15)]), vec);
}

#[test]
fn empty_vec() {
    let mut vec = tiv(&[]);
    insert_interval_and_merge_pre_sorted_linear(&mut vec, (4, 8).into());
    assert_eq!(tiv(&[(4, 8)]), vec);
}

#[test]
fn insert_unsorted() {
    let mut vec = tiv(&[(12, 20), (2, 3), (5, 10)]);
    sort_and_insert_interval_and_merge_linear(&mut vec, (4, 8).into());
    assert_eq!(tiv(&[(2, 3), (4, 10), (12, 20)]), vec);
}

#[test]
fn bisecting_insert_front_touching() {
    let mut vec = tiv(&[(1, 2), (5, 6)]);
    insert_interval_and_merge_pre_sorted(&mut vec, (0, 1).into());
    assert_eq!(tiv(&[(0, 2), (5, 6)]), vec);
}

#[test]
fn bisecting_insert_widens_one() {
    let mut vec = tiv(&[(2, 4), (8, 9)]);
    insert_interval_and_merge_pre_sorted(&mut vec, (2, 6).into());
    assert_eq!(tiv(&[(2, 6), (8, 9)]), vec);
}

#[test]
fn bisecting_insert_joins_two() {
    let mut vec = tiv(&[(1, 2), (3, 4), (6, 7), (10, 11), (13, 15)]);
    insert_interval_and_merge_pre_sorted(&mut vec, (4, 8).into());
    assert_eq!(tiv(&[(1, 2), (3, 8), (10, 11), (13, 15)]), vec);
}

#[test]
fn bisecting_insert_into_empty() {
    let mut vec = tiv(&[]);
    insert_interval_and_merge_pre_sorted(&mut vec, (4, 8).into());
    assert_eq!(tiv(&[(4, 8)]), vec);
}

#[test]
fn bisecting_insert_between_without_touching() {
    let mut vec = tiv(&[(1, 2), (10, 11)]);
    insert_interval_and_merge_pre_sorted(&mut vec, (4, 8).into());
    assert_eq!(tiv(&[(1, 2), (4, 8), (10, 11)]), vec);
}

#[test]
fn bisecting_insert_at_the_end() {
    let mut vec = tiv(&[(1, 2), (4, 5)]);
    insert_interval_and_merge_pre_sorted(&mut vec, (7, 9).into());
    assert_eq!(tiv(&[(1, 2), (4, 5), (7, 9)]), vec);
}

#[test]
fn bisecting_insert_swallows_all() {
    let mut vec = tiv(&[(1, 2), (4, 5), (7, 9)]);
    insert_interval_and_merge_pre_sorted(&mut vec, (0, 20).into());
    assert_eq!(tiv(&[(0, 20)]), vec);
}

#[test]
fn bisecting_insert_inside_one() {
    let mut vec = tiv(&[(1, 9), (12, 13)]);
    insert_interval_and_merge_pre_sorted(&mut vec, (3, 4).into());
    assert_eq!(tiv(&[(1, 9), (12, 13)]), vec);
}

#[test]
fn both_insertions_agree() {
    let base = tiv(&[(1, 2), (3, 4), (6, 7), (10, 11), (13, 15)]);
    for start in 0..17u32 {
        for end in start..17u32 {
            let mut by_bisection = base.clone();
            let mut by_scan = base.clone();
            insert_interval_and_merge_pre_sorted(&mut by_bisection, (start, end).into());
            insert_interval_and_merge_pre_sorted_linear(&mut by_scan, (start, end).into());
            assert_eq!(by_bisection, by_scan);
        }
    }
}

#[test]
fn sort_and_insert_merges_first() {
    let mut vec = tiv(&[(12, 20), (2, 3), (5, 10), (9, 13)]);
    sort_and_insert_interval_and_merge(&mut vec, (4, 8).into());
    assert_eq!(tiv(&[(2, 3), (4, 20)]), vec);
}

#[test]
fn sort_and_insert_linear_merges_first() {
    let mut vec = tiv(&[(12, 20), (2, 3), (5, 10), (9, 13)]);
    sort_and_insert_interval_and_merge_linear(&mut vec, (4, 8).into());
    assert_eq!(tiv(&[(2, 3), (4, 20)]), vec);
}
