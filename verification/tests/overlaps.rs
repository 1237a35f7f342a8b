use kupsy::intervals::{max_overlaps_depth, Interval};

fn tiv(pairs: &[(u32, u32)]) -> Vec<Interval<u32>> {
    pairs.iter().map(|&pair| pair.into()).collect()
}

#[test]
fn overlaps_empty_intervals() {
    let intervals: Vec<Interval<u32>> = tiv(&[]);

    let max_overlaps_depth = max_overlaps_depth(&intervals);
    assert_eq!(max_overlaps_depth, 0);
}

#[test]
fn overlaps_single_interval() {
    let intervals: Vec<Interval<u32>> = tiv(&[(1, 5)]);

    let max_overlaps_depth = max_overlaps_depth(&intervals);
    assert_eq!(max_overlaps_depth, 1);
}

#[test]
fn overlaps_non_overlapping_intervals() {
    let intervals: Vec<Interval<u32>> = tiv(&[(1, 3), (4, 6)]);

    let max_overlaps_depth = max_overlaps_depth(&intervals);
    assert_eq!(max_overlaps_depth, 1);
}

#[test]
fn partially_overlapping_intervals() {
    let intervals: Vec<Interval<u32>> = tiv(&[(1, 3), (2, 4), (4, 5)]);

    let max_overlaps_depth = max_overlaps_depth(&intervals);
    assert_eq!(max_overlaps_depth, 2);
}

#[test]
fn fully_overlapping_intervals() {
    let intervals: Vec<Interval<u32>> = tiv(&[(1, 5), (2, 5), (3, 5)]);

    let max_overlaps_depth = max_overlaps_depth(&intervals);
    assert_eq!(max_overlaps_depth, 3);
}

#[test]
fn complex_interval_set() {
    let intervals: Vec<Interval<u32>> = tiv(&[(1, 10), (2, 3), (3, 7), (4, 8), (5, 9)]);

    let max_overlaps_depth = max_overlaps_depth(&intervals);
    assert_eq!(max_overlaps_depth, 4);
}

#[test]
fn depth_that_peaks_early() {
    let intervals: Vec<Interval<u32>> = tiv(&[
        (1, 10), (2, 10), (3, 10), (10, 11), (11, 12), (12, 13),
    ]);

    let max_overlaps_depth = max_overlaps_depth(&intervals);
    assert_eq!(max_overlaps_depth, 3);
}

#[test]
fn touching_intervals_make_room() {
    let intervals: Vec<Interval<u32>> = tiv(&[(1, 2), (2, 3), (3, 4)]);

    let max_overlaps_depth = max_overlaps_depth(&intervals);
    assert_eq!(max_overlaps_depth, 1);
}
