use kupsy::intervals::{
    clip_overlaps, has_overlaps, has_overlaps_interval_iters, intersection_interval_iters,
    max_overlaps_interval_iters, merge_interval_iters,
    merge_overlapping_from_interval_iters_pre_sorted, remove_overlaps,
    sort_and_merge_overlapping_from_interval_iters, Interval,
};

fn tiv(pairs: &[(u32, u32)]) -> Vec<Interval<u32>> {
    pairs.iter().map(|&pair| pair.into()).collect()
}

#[test]
fn merge_of_no_collections_is_empty() {
    assert_eq!(merge_interval_iters::<u32>(&vec![]), tiv(&[]));
    assert_eq!(merge_interval_iters(&vec![tiv(&[]), tiv(&[])]), tiv(&[]));
}

#[test]
fn merge_of_one_collection_merges_it() {
    let input = vec![tiv(&[(1, 3), (2, 5), (7, 8), (8, 9)])];
    assert_eq!(merge_interval_iters(&input), tiv(&[(1, 5), (7, 9)]));
}

#[test]
fn merge_of_three_collections() {
    let input = vec![
        tiv(&[(1, 3), (5, 7), (20, 22)]),
        tiv(&[(4, 6), (8, 10)]),
        tiv(&[]),
        tiv(&[(0, 1), (10, 11), (30, 31)]),
    ];
    let expected = tiv(&[(0, 3), (4, 7), (8, 11), (20, 22), (30, 31)]);
    assert_eq!(merge_interval_iters(&input), expected);
    assert_eq!(merge_overlapping_from_interval_iters_pre_sorted(&input), expected);
}

#[test]
fn merge_of_many_agrees_with_merge_of_two() {
    let a = tiv(&[(1, 3), (5, 7)]);
    let b = tiv(&[(4, 6), (8, 10)]);
    let expected = tiv(&[(1, 3), (4, 7), (8, 10)]);
    assert_eq!(merge_interval_iters(&vec![a.clone(), b.clone()]), expected);
    assert_eq!(kupsy::intervals::merge_2_interval_iters(&a, &b), expected);
}

#[test]
fn sort_and_merge_of_many_sorts_each_in_place() {
    let mut input = vec![tiv(&[(12, 20), (2, 3), (5, 6)]), tiv(&[(8, 11), (7, 8)]), tiv(&[(3, 4)])];
    let result = sort_and_merge_overlapping_from_interval_iters(&mut input);
    assert_eq!(result, tiv(&[(2, 4), (5, 6), (7, 11), (12, 20)]));
    assert_eq!(input[0], tiv(&[(2, 3), (5, 6), (12, 20)]));
    assert_eq!(input[1], tiv(&[(7, 8), (8, 11)]));
}

#[test]
fn intersection_of_none_one_and_three() {
    assert_eq!(intersection_interval_iters::<u32>(&vec![]), tiv(&[]));
    let one = vec![tiv(&[(1, 4), (6, 9)])];
    assert_eq!(intersection_interval_iters(&one), tiv(&[(1, 4), (6, 9)]));
    let three = vec![tiv(&[(0, 10), (12, 20)]), tiv(&[(1, 4), (6, 14)]), tiv(&[(3, 7), (13, 30)])];
    assert_eq!(intersection_interval_iters(&three), tiv(&[(3, 4), (6, 7), (13, 14)]));
}

#[test]
fn depth_over_several_collections() {
    let input = vec![tiv(&[(1, 10), (12, 14)]), tiv(&[(2, 3), (4, 8)]), tiv(&[(3, 7), (13, 15)])];
    assert_eq!(max_overlaps_interval_iters(&input), 3);
    assert_eq!(max_overlaps_interval_iters::<u32>(&vec![]), 0);
    assert_eq!(max_overlaps_interval_iters(&vec![tiv(&[(1, 2), (2, 3)]), tiv(&[(3, 5)])]), 1);
}

#[test]
fn has_overlaps_counts_touching() {
    assert!(!has_overlaps(&tiv(&[])));
    assert!(!has_overlaps(&tiv(&[(1, 2)])));
    assert!(!has_overlaps(&tiv(&[(1, 2), (3, 4), (5, 6)])));
    assert!(has_overlaps(&tiv(&[(1, 2), (2, 4)])));
    assert!(has_overlaps(&tiv(&[(1, 9), (2, 3), (10, 11)])));
    assert!(has_overlaps(&tiv(&[(1, 9), (10, 11), (10, 12)])));
    assert!(!has_overlaps_interval_iters(&tiv(&[(1, 2), (3, 4), (5, 6)])));
    assert!(has_overlaps_interval_iters(&tiv(&[(1, 2), (3, 4), (4, 6)])));
}

#[test]
fn remove_overlaps_drops_and_does_not_merge() {
    let mut v = tiv(&[(1, 4), (2, 9), (4, 5), (5, 6), (6, 7), (8, 9)]);
    remove_overlaps(&mut v);
    assert_eq!(v, tiv(&[(1, 4), (5, 6), (8, 9)]));
    let mut canonical = tiv(&[(1, 2), (4, 5), (7, 7)]);
    remove_overlaps(&mut canonical);
    assert_eq!(canonical, tiv(&[(1, 2), (4, 5), (7, 7)]));
    let mut none = tiv(&[]);
    remove_overlaps(&mut none);
    assert_eq!(none, tiv(&[]));
}

#[test]
fn clip_overlaps_cuts_what_is_covered() {
    let mut v = tiv(&[(1, 4), (2, 9), (3, 5), (9, 9), (10, 12), (11, 11), (11, 14)]);
    clip_overlaps(&mut v);
    assert_eq!(v, tiv(&[(1, 4), (4, 9), (10, 12), (12, 14)]));
    let mut none = tiv(&[]);
    clip_overlaps(&mut none);
    assert_eq!(none, tiv(&[]));
}

#[test]
fn clipping_keeps_the_covered_points() {
    let raw = tiv(&[(1, 4), (2, 9), (3, 5), (9, 9), (10, 12), (11, 11), (11, 14)]);
    let mut cut = raw.clone();
    clip_overlaps(&mut cut);
    for x in 0..20u32 {
        let in_raw = raw.iter().any(|interval| interval.start <= x && x < interval.end);
        let in_cut = cut.iter().filter(|interval| interval.start <= x && x < interval.end).count();
        assert_eq!(in_raw as usize, in_cut);
    }
}
