use kupsy::intervals::{
    insert_interval_and_merge_pre_sorted, intersection_2_interval_iters,
    intersection_interval_iters, merge_2_interval_iters, merge_interval_iters, merge_overlapping,
    merge_overlapping_from_2_interval_iters_pre_sorted, remove_overlaps,
    sort_and_merge_overlapping, Interval, IntervalVec,
};

fn tiv(pairs: &[(u32, u32)]) -> Vec<Interval<u32>> {
    pairs.iter().map(|&pair| pair.into()).collect()
}

fn is_canonical(v: &[Interval<u32>]) -> bool {
    v.windows(2).all(|pair| pair[0].start <= pair[1].start && pair[0].end < pair[1].start)
}

fn covers(v: &[Interval<u32>], x: u32) -> bool {
    v.iter().any(|interval| interval.start <= x && x < interval.end)
}

fn touches(v: &[Interval<u32>], x: u32) -> bool {
    v.iter().any(|interval| interval.start <= x && x <= interval.end)
}

#[test]
fn every_operation_returns_a_canonical_collection() {
    let a = tiv(&[(1, 3), (5, 7), (9, 9), (20, 22)]);
    let b = tiv(&[(0, 1), (4, 6), (8, 10), (10, 11), (30, 31)]);
    let c = tiv(&[(2, 2), (6, 21)]);
    assert!(is_canonical(&merge_2_interval_iters(&a, &b)));
    assert!(is_canonical(&merge_overlapping_from_2_interval_iters_pre_sorted(&a, &b)));
    assert!(is_canonical(&merge_interval_iters(&vec![a.clone(), b.clone(), c.clone()])));
    assert!(is_canonical(&intersection_2_interval_iters(&a, &c)));
    assert!(is_canonical(&intersection_interval_iters(&vec![a.clone(), b.clone(), c.clone()])));
    let mut raw = tiv(&[(9, 12), (1, 4), (2, 3), (4, 6), (8, 9), (20, 21), (15, 16)]);
    sort_and_merge_overlapping(&mut raw);
    assert!(is_canonical(&raw));
    for start in 0..24u32 {
        for end in start..24u32 {
            let mut grown = a.clone();
            insert_interval_and_merge_pre_sorted(&mut grown, (start, end).into());
            assert!(is_canonical(&grown));
        }
    }
    let mut thinned = tiv(&[(1, 4), (2, 9), (4, 5), (5, 6), (6, 7), (8, 9)]);
    remove_overlaps(&mut thinned);
    assert!(is_canonical(&thinned));
}

#[test]
fn merged_forms_have_the_points_of_what_they_were_made_from() {
    let a = tiv(&[(1, 3), (5, 7), (9, 9), (20, 22)]);
    let b = tiv(&[(0, 1), (4, 6), (8, 10), (10, 11), (13, 13)]);
    let merged = merge_2_interval_iters(&a, &b);
    assert_eq!(merged, tiv(&[(0, 3), (4, 7), (8, 11), (13, 13), (20, 22)]));
    for x in 0..25u32 {
        assert_eq!(covers(&merged, x), covers(&a, x) || covers(&b, x));
        assert_eq!(touches(&merged, x), touches(&a, x) || touches(&b, x));
    }
}

#[test]
fn inserting_adds_the_points_of_the_new_interval() {
    let base = tiv(&[(1, 2), (3, 4), (6, 7), (10, 11), (13, 15)]);
    for start in 0..17u32 {
        for end in start..17u32 {
            let mut grown = base.clone();
            insert_interval_and_merge_pre_sorted(&mut grown, (start, end).into());
            for x in 0..18u32 {
                assert_eq!(covers(&grown, x), covers(&base, x) || (start <= x && x < end));
                assert_eq!(touches(&grown, x), touches(&base, x) || (start <= x && x <= end));
            }
        }
    }
}

#[test]
fn intersections_cover_what_both_cover() {
    let a = tiv(&[(0, 4), (6, 9), (12, 20)]);
    let b = tiv(&[(1, 2), (3, 7), (9, 13), (19, 25)]);
    let both = intersection_2_interval_iters(&a, &b);
    assert_eq!(both, tiv(&[(1, 2), (3, 4), (6, 7), (12, 13), (19, 20)]));
    for x in 0..26u32 {
        assert_eq!(covers(&both, x), covers(&a, x) && covers(&b, x));
    }
}

#[test]
fn a_chain_of_intervals_merges_into_one() {
    for n in 2..60u32 {
        let mut input: Vec<Interval<u32>> = (1..n).map(|i| (i * 2 - 1, i * 2 + 1).into()).collect();
        merge_overlapping(&mut input);
        assert_eq!(input, tiv(&[(1, 2 * n - 1)]));
    }
}

#[test]
fn merged_lengths_add_up_to_the_measure_of_the_union() {
    let raw = tiv(&[(1, 4), (2, 3), (4, 6), (8, 9), (9, 9), (11, 12), (30, 40), (35, 36)]);
    let mut merged = raw.clone();
    merge_overlapping(&mut merged);
    assert_eq!(merged, tiv(&[(1, 6), (8, 9), (11, 12), (30, 40)]));
    let total: u32 = merged.iter().map(|interval| interval.length()).sum();
    let measure = (0..50u32).filter(|&x| covers(&raw, x)).count();
    assert_eq!(total, 17);
    assert_eq!(measure, 17);
}

#[test]
fn interval_vec_can_be_changed_in_place() {
    let mut v: IntervalVec<u32> = tiv(&[(1, 2), (4, 5)]).into();
    v.inner_vec_mut().push((7, 9).into());
    assert_eq!(v.inner_vec(), &tiv(&[(1, 2), (4, 5), (7, 9)]));
    assert_eq!(v.len(), 3);
}
