use kupsy::intervals::{
    merge_overlapping, merge_overlapping_from_2_interval_iters_pre_sorted,
    sort_and_merge_overlapping, sort_and_merge_overlapping_from_2_interval_iters, Interval,
};

fn tiv(pairs: &[(u32, u32)]) -> Vec<Interval<u32>> {
    pairs.iter().map(|&pair| pair.into()).collect()
}

#[test]
fn simple_333() {
    let result = merge_overlapping_from_2_interval_iters_pre_sorted(
        &tiv(&[(0, 1)]),
        &tiv(&[(1, 2), (5, 6)]),
    );
    assert_eq!(tiv(&[(0, 2), (5, 6)]), result);
}

#[test]
fn merge_overlapping_simple() {
    let result = merge_overlapping_from_2_interval_iters_pre_sorted(
        &tiv(&[(0, 1)]),
        &tiv(&[(1, 2), (5, 6)]),
    );
    assert_eq!(tiv(&[(0, 2), (5, 6)]), result);
}

#[test]
fn all_overlap() {
    let result = merge_overlapping_from_2_interval_iters_pre_sorted(
        &tiv(&[]),
        &tiv(&[(1, 3), (2, 3), (3, 8), (5, 9)]),
    );
    assert_eq!(tiv(&[(1, 9)]), result);
}

#[test]
fn no_overlaps() {
    let result = merge_overlapping_from_2_interval_iters_pre_sorted(
        &tiv(&[]),
        &tiv(&[(1, 2), (3, 4), (5, 6)]),
    );
    assert_eq!(tiv(&[(1, 2), (3, 4), (5, 6)]), result);
}

#[test]
fn a_empty() {
    let result = merge_overlapping_from_2_interval_iters_pre_sorted(
        &tiv(&[]),
        &tiv(&[(1, 2), (2, 3), (5, 6)]),
    );
    assert_eq!(tiv(&[(1, 3), (5, 6)]), result);
}

#[test]
fn b_empty() {
    let result = merge_overlapping_from_2_interval_iters_pre_sorted(
        &tiv(&[(1, 2), (2, 3), (5, 6)]),
        &tiv(&[]),
    );
    assert_eq!(tiv(&[(1, 3), (5, 6)]), result);
}

#[test]
fn both_empty() {
    let result = merge_overlapping_from_2_interval_iters_pre_sorted(
        &tiv(&[]),
        &tiv(&[]),
    );
    assert_eq!(tiv(&[]), result);
}

#[test]
fn merge_overlapping_unsorted() {
    let result = sort_and_merge_overlapping_from_2_interval_iters(
        &mut tiv(&[(12, 20), (2, 3), (5, 6)]),
        &mut tiv(&[(8, 11), (7, 8)]),
    );
    assert_eq!(tiv(&[(2, 3), (5, 6), (7, 11), (12, 20)]), result);
}

#[test]
fn test_empty_vec() {
    let mut input = tiv(&[]);
    merge_overlapping(&mut input);
    assert_eq!(input, tiv(&[]));
}

#[test]
fn test_single_interval() {
    let mut input = tiv(&[(1, 3)]);
    merge_overlapping(&mut input);
    assert_eq!(input, tiv(&[(1, 3)]));
}

#[test]
fn merge_overlapping_test_disjoint_intervals() {
    let mut input = tiv(&[(1, 3), (5, 7)]);
    merge_overlapping(&mut input);
    assert_eq!(input, tiv(&[(1, 3), (5, 7)]));
}

#[test]
fn test_disjoint_intervals_unsorted() {
    let mut input = tiv(&[(5, 7), (1, 3)]);
    sort_and_merge_overlapping(&mut input);
    assert_eq!(input, tiv(&[(1, 3), (5, 7)]));
}

#[test]
fn merge_overlapping_test_overlapping_intervals() {
    let mut input = tiv(&[(1, 3), (2, 5), (4, 7), (6, 8)]);
    merge_overlapping(&mut input);
    assert_eq!(input, tiv(&[(1, 8)]));
}

#[test]
fn test_overlapping_intervals_unsorted() {
    let mut input = tiv(&[(1, 3), (2, 5), (6, 8), (4, 7)]);
    sort_and_merge_overlapping(&mut input);
    assert_eq!(input, tiv(&[(1, 8)]));
}

#[test]
fn merge_overlapping_test_nested_intervals() {
    let mut input = tiv(&[(1, 7), (2, 4), (6, 8)]);
    merge_overlapping(&mut input);
    assert_eq!(input, tiv(&[(1, 8)]));
}

#[test]
fn test_nested_intervals_unsorted() {
    let mut input = tiv(&[(2, 4), (6, 8), (1, 7)]);
    sort_and_merge_overlapping(&mut input);
    assert_eq!(input, tiv(&[(1, 8)]));
}

#[test]
fn merge_overlapping_test_adjacent_intervals() {
    let mut input = tiv(&[(1, 3), (4, 5), (5, 7)]);
    merge_overlapping(&mut input);
    assert_eq!(input, tiv(&[(1, 3), (4, 7)]));
}

#[test]
fn test_duplicate_intervals() {
    let mut input = tiv(&[(1, 3), (2, 5), (1, 3)]);
    merge_overlapping(&mut input);
    assert_eq!(input, tiv(&[(1, 5)]));
}

#[test]
fn test_large_input() {
    let mut input = (1..1000)
        .map(|i| (i * 2 - 1, i * 2 + 1).into())
        .collect::<Vec<_>>();
    merge_overlapping(&mut input);
    assert_eq!(input, tiv(&[(1, 1999)]));
}

#[test]
fn merging_a_canonical_collection_changes_nothing() {
    let mut input = tiv(&[(1, 2), (4, 6), (7, 7), (9, 12)]);
    merge_overlapping(&mut input);
    assert_eq!(input, tiv(&[(1, 2), (4, 6), (7, 7), (9, 12)]));
}

#[test]
fn merging_twice_is_merging_once() {
    let mut input = tiv(&[(1, 4), (2, 3), (4, 6), (8, 9), (9, 9), (11, 12)]);
    merge_overlapping(&mut input);
    let once = input.clone();
    merge_overlapping(&mut input);
    assert_eq!(input, once);
    assert_eq!(input, tiv(&[(1, 6), (8, 9), (11, 12)]));
}

#[test]
fn merged_output_is_strictly_separated() {
    let mut input = tiv(&[(9, 12), (1, 4), (2, 3), (4, 6), (8, 9), (20, 21), (15, 16)]);
    sort_and_merge_overlapping(&mut input);
    for pair in input.windows(2) {
        assert!(pair[0].end < pair[1].start);
    }
    assert_eq!(input, tiv(&[(1, 6), (8, 12), (15, 16), (20, 21)]));
}

#[test]
fn merging_keeps_the_covered_points() {
    let raw = tiv(&[(1, 4), (2, 3), (4, 6), (8, 9), (9, 9), (11, 12)]);
    let mut merged = raw.clone();
    merge_overlapping(&mut merged);
    let total: u32 = merged.iter().map(|interval| interval.length()).sum();
    let covered = (0..20u32)
        .filter(|&x| raw.iter().any(|interval| interval.start <= x && x < interval.end))
        .count();
    assert_eq!(total as usize, covered);
    assert_eq!(total, 7);
    for x in 0..20u32 {
        let in_raw = raw.iter().any(|interval| interval.start <= x && x < interval.end);
        let in_merged = merged.iter().any(|interval| interval.start <= x && x < interval.end);
        assert_eq!(in_raw, in_merged);
    }
}

#[test]
fn two_way_merges_agree() {
    let a = tiv(&[(1, 3), (5, 7), (20, 22)]);
    let b = tiv(&[(4, 6), (8, 10), (10, 11)]);
    let expected = tiv(&[(1, 3), (4, 7), (8, 11), (20, 22)]);
    assert_eq!(merge_overlapping_from_2_interval_iters_pre_sorted(&a, &b), expected);
    assert_eq!(merge_overlapping_from_2_interval_iters_pre_sorted(&b, &a), expected);
    assert_eq!(kupsy::intervals::merge_2_interval_iters(&a, &b), expected);
}
